//! What a client of the monitors asks for, takes, publishes and gives up.

use super::client::{
    committing, complete, handling, leaving, mgrmap_taken, monmap_taken, publishing, reacting,
    started, subscriptions, update_of, update_step, workable, addresses, ConfigView,
    DeliveryView, MessageAction, MonitorError, OwnerView, SessionEvent, SessionOutcome,
    StateView, SubscriptionKind, UpdateStep, UpdateView, law_newest_map_is_the_base,
};
use super::message_laws::{
    batch_front, carries, distinct_epochs, holds, law_batch_reads_back, law_monmap_reads_back,
    law_subscribe_ack_reads_back, law_subscribe_reads_back, subscription_decoder,
};
use super::messages::{subscribe_encoding, Subscription};
use super::seeds::SocketAddress;
use crate::msgr::message::MessageView;
use crate::wire::{get_many, get_text, get_u32, input, le32, prefixed};
use vstd::prelude::*;

verus! {

broadcast use crate::wire::group_integers;

// ---------------------------------------------------------------------------
// Subscriptions
// ---------------------------------------------------------------------------

/// A map is subscribed to for good, from the epoch after the one at hand on.
pub open spec fn followed(entry: (Seq<char>, Subscription), name: &str, at: Option<u32>) -> bool {
    &&& entry.0 == name@
    &&& entry.1.flags == 0
    &&& at matches Some(epoch) ==> entry.1.start == epoch + 1
    &&& at is None ==> entry.1.start == 0
}

/// All three maps are followed: none is asked for only once, and each from the epoch after the one
/// at hand on. Only a single full map of the storage daemons is asked for once, whatever its epoch.
pub proof fn law_maps_are_followed(s: StateView)
    ensures
        ({
            let all = subscriptions(s, SubscriptionKind::AllMaps);
            &&& all.len() == 3
            &&& followed(all[0], "mgrmap", s.mgrmap)
            &&& followed(all[1], "monmap", s.monmap)
            &&& followed(all[2], "osdmap", s.osdmap)
        }),
        ({
            let one = subscriptions(s, SubscriptionKind::FullOsdMap);
            &&& one.len() == 1
            &&& one[0].0 == "osdmap"@
            &&& one[0].1.start == 0
            &&& one[0].1.flags == 1
        }),
{
}

/// The message that subscribes to all maps follows each of them, and names the host.
pub proof fn law_subscription_message_follows_maps(
    s: StateView,
    hostname: Seq<char>,
    max_bytes: u32,
)
    ensures
        subscribe_encoding(subscriptions(s, SubscriptionKind::AllMaps), hostname, max_bytes)
            matches Ok(m) ==> {
            let (count, d) = get_u32(input(m.front));
            let read = get_many(d, 3, subscription_decoder());
            &&& carries(m, 15, m.front)
            &&& count == 3
            &&& read is Ok
            &&& followed(read->Ok_0.0[0], "mgrmap", s.mgrmap)
            &&& followed(read->Ok_0.0[1], "monmap", s.monmap)
            &&& followed(read->Ok_0.0[2], "osdmap", s.osdmap)
            &&& get_text(read->Ok_0.1) == (hostname, input(Seq::empty()))
        },
        subscribe_encoding(subscriptions(s, SubscriptionKind::FullOsdMap), hostname, max_bytes)
            matches Ok(m) ==> {
            let (count, d) = get_u32(input(m.front));
            let read = get_many(d, 1, subscription_decoder());
            &&& carries(m, 15, m.front)
            &&& count == 1
            &&& read is Ok
            &&& read->Ok_0.0[0] == ("osdmap"@, Subscription { start: 0, flags: 1 })
            &&& get_text(read->Ok_0.1) == (hostname, input(Seq::empty()))
        },
{
    law_maps_are_followed(s);
    law_subscribe_reads_back(subscriptions(s, SubscriptionKind::AllMaps), hostname, max_bytes);
    law_subscribe_reads_back(subscriptions(s, SubscriptionKind::FullOsdMap), hostname, max_bytes);
}

// ---------------------------------------------------------------------------
// States
// ---------------------------------------------------------------------------

/// What is published is the state, under a generation that was not used before. What was published
/// before is kept as the newest of the history, unless no history is wanted or nothing was published
/// before; the others stay behind it as far as the history holds them.
pub proof fn law_published_states_are_kept(o: OwnerView)
    requires
        o.history.len() <= o.config.history_limit,
    ensures
        ({
            let p = publishing(o);
            let kept = o.published.generation > 0 && o.config.history_limit > 0;
            &&& p.published == p.state
            &&& p.state == (StateView { generation: p.state.generation, ..o.state })
            &&& o.state.generation < u64::MAX ==> p.state.generation == o.state.generation + 1
            &&& p.state.generation >= o.state.generation
            &&& kept ==> p.history.len() > 0 && p.history[0] == o.published
            &&& kept ==> forall|i: int|
                0 < i < p.history.len() ==> #[trigger] p.history[i] == o.history[i - 1]
            &&& kept && o.history.len() < o.config.history_limit ==> p.history.len()
                == o.history.len() + 1
            &&& kept && o.history.len() == o.config.history_limit ==> p.history.len()
                == o.history.len()
            &&& !kept ==> p.history == o.history
            &&& (p.config, p.next_seed, p.pinned_fsid, p.refresh_epoch, p.foreign_seeds) == (
                o.config,
                o.next_seed,
                o.pinned_fsid,
                o.refresh_epoch,
                o.foreign_seeds,
            )
        }),
{
}

/// A client starts with the identity that it expects, if it expects one, and knows nothing else. It
/// can serve requests once it knows the cluster and has a map of the monitors and one of the storage
/// daemons.
pub proof fn law_client_needs_three_things(c: ConfigView, s: StateView)
    ensures
        started(c).pinned_fsid == c.expected_fsid,
        started(c).published.connected_fsid == c.expected_fsid,
        started(c).state.connected_fsid is None,
        started(c).published.generation == 0,
        started(c).state.generation == 0,
        started(c).next_seed == 0,
        started(c).refresh_epoch is None,
        started(c).foreign_seeds.len() == 0,
        started(c).history.len() == 0,
        !complete(started(c).state) && !complete(started(c).published),
        s.connected_fsid is None ==> !complete(s),
        s.monmap is None ==> !complete(s),
        s.osdmap is None ==> !complete(s),
        forall|fsid: Seq<u8>, monmap: u32, osdmap: u32|
            complete(
                #[trigger] known(s, fsid, monmap, osdmap),
            ),
{
}

/// A state with an identity and two maps.
pub open spec fn known(s: StateView, fsid: Seq<u8>, monmap: u32, osdmap: u32) -> StateView {
    StateView { connected_fsid: Some(fsid), monmap: Some(monmap), osdmap: Some(osdmap), ..s }
}

/// A configuration is refused for any bound of zero and for want of seeds, and for nothing else.
pub proof fn law_empty_bounds_are_refused(c: ConfigView)
    ensures
        !workable(c) <==> {
            ||| c.seeds.len() == 0
            ||| c.max_seed_attempts == 0
            ||| c.operation_timeout.seconds == 0 && c.operation_timeout.nanoseconds == 0
            ||| c.subscribe_period.seconds == 0 && c.subscribe_period.nanoseconds == 0
            ||| c.error_capacity == 0
            ||| c.message_limits.max_bytes == 0
            ||| c.message_limits.max_maps == 0
            ||| c.map_limits.max_bytes == 0
            ||| c.map_limits.max_monitors == 0
            ||| c.map_limits.max_addresses == 0
            ||| c.map_limits.max_locations == 0
            ||| c.map_limits.max_pools == 0
            ||| c.map_limits.max_osds == 0
            ||| c.map_limits.max_pg_mappings == 0
            ||| c.map_limits.max_collection_entries == 0
        },
{
}

// ---------------------------------------------------------------------------
// Messages
// ---------------------------------------------------------------------------

/// The cluster that an acknowledgement names becomes the client's, and is published. One that names
/// another cluster than the client's is refused.
pub proof fn law_acknowledgement_names_the_cluster(
    o: OwnerView,
    m: MessageView,
    interval: u32,
    fsid: Seq<u8>,
)
    requires
        fsid.len() == 16,
        carries(m, 16, le32(interval) + fsid),
        o.config.message_limits.max_bytes >= 20,
    ensures
        o.pinned_fsid is None || o.pinned_fsid == Some(fsid) ==> {
            let (after, outcome) = handling(o, m);
            &&& outcome == Ok::<DeliveryView, MonitorError>(DeliveryView::Handled)
            &&& after.pinned_fsid == Some(fsid)
            &&& after.published.connected_fsid == Some(fsid)
            &&& after.state.connected_fsid == Some(fsid)
            &&& after.published.monmap == o.state.monmap
            &&& after.published.osdmap == o.state.osdmap
            &&& after.published.mgrmap == o.state.mgrmap
            &&& after.published.global_id == o.state.global_id
        },
        o.pinned_fsid is Some && o.pinned_fsid != Some(fsid) ==> handling(o, m) == (
            o,
            Err::<DeliveryView, MonitorError>(MonitorError::ForeignCluster),
        ),
{
    law_subscribe_ack_reads_back(m, interval, fsid, o.config.message_limits.max_bytes);
}

/// Maps are handed on as they were sent, each as the kind of map that its message is for, and change
/// nothing before they are read. Messages of other types are passed over.
pub proof fn law_maps_are_handed_on(o: OwnerView, m: MessageView, map: Seq<u8>)
    ensures
        carries(m, 4, prefixed(map)) && map.len() + 4 <= o.config.map_limits.max_bytes ==> handling(
            o,
            m,
        ) == (o, Ok::<DeliveryView, MonitorError>(DeliveryView::MonMap(map))),
        carries(m, 0x704, map) && map.len() <= o.config.map_limits.max_bytes
            && o.config.map_limits.max_bytes > 0 && m.header.version == 1
            && m.header.compat_version == 1 && o.pinned_fsid is Some ==> handling(o, m) == (
            o,
            Ok::<DeliveryView, MonitorError>(DeliveryView::MgrMap(map)),
        ),
        m.header.message_type == 0x704 && o.pinned_fsid is None ==> handling(o, m) == (
            o,
            Err::<DeliveryView, MonitorError>(MonitorError::IdentityUnavailable),
        ),
        m.header.message_type != 16 && m.header.message_type != 4 && m.header.message_type != 41
            && m.header.message_type != 0x704 ==> handling(o, m) == (
            o,
            Ok::<DeliveryView, MonitorError>(DeliveryView::Handled),
        ),
{
    if carries(m, 4, prefixed(map)) && map.len() + 4 <= o.config.map_limits.max_bytes {
        law_monmap_reads_back(m, map, o.config.map_limits);
    }
}

/// Maps of the storage daemons are handed on together, as they were sent.
pub proof fn law_batches_are_handed_on(
    o: OwnerView,
    m: MessageView,
    fsid: Seq<u8>,
    incrementals: Seq<(u32, Seq<u8>)>,
    full_maps: Seq<(u32, Seq<u8>)>,
    trim_lower_bound: u32,
    newest_map: u32,
)
    requires
        fsid.len() == 16,
        distinct_epochs(incrementals),
        distinct_epochs(full_maps),
        0 < o.config.message_limits.max_maps,
        incrementals.len() <= o.config.message_limits.max_maps,
        full_maps.len() <= o.config.message_limits.max_maps,
        m.header.version >= 3,
        m.header.compat_version <= 4,
        carries(
            m,
            41,
            batch_front(
                fsid,
                incrementals,
                full_maps,
                trim_lower_bound,
                newest_map,
                m.header.version >= 4,
            ),
        ),
        m.front.len() <= o.config.message_limits.max_bytes,
    ensures
        handling(o, m).0 == o,
        handling(o, m).1 matches Ok(DeliveryView::OsdMaps(batch)) && batch.fsid == fsid && holds(
            batch.incrementals,
            incrementals,
        ) && holds(batch.full_maps, full_maps) && batch.trim_lower_bound == trim_lower_bound
            && batch.newest_map == newest_map,
{
    law_batch_reads_back(
        m,
        fsid,
        incrementals,
        full_maps,
        trim_lower_bound,
        newest_map,
        o.config.message_limits,
    );
}

/// The newer of two maps.
pub open spec fn newer_of(at: Option<u32>, epoch: u32) -> Option<u32> {
    match at {
        Some(old) => Some(
            if old > epoch {
                old
            } else {
                epoch
            },
        ),
        None => Some(epoch),
    }
}

/// A map of the monitors of the client's cluster replaces an older one, and no other map. It is
/// published if it does. That of another cluster is refused.
pub proof fn law_monmap_replaces_an_older_one(o: OwnerView, fsid: Seq<u8>, epoch: u32)
    ensures
        o.pinned_fsid is None || o.pinned_fsid == Some(fsid) ==> {
            let (after, outcome) = monmap_taken(o, fsid, epoch);
            &&& outcome == Ok::<MessageAction, MonitorError>(MessageAction::Nothing)
            &&& after.pinned_fsid == Some(fsid)
            &&& after.state.connected_fsid == Some(fsid)
            &&& after.state.monmap == newer_of(o.state.monmap, epoch)
            &&& after.state.osdmap == o.state.osdmap
            &&& after.state.mgrmap == o.state.mgrmap
            &&& after.state.monmap != o.state.monmap ==> after.published == after.state
            &&& after.state.monmap == o.state.monmap ==> after.published == o.published
        },
        o.pinned_fsid is Some && o.pinned_fsid != Some(fsid) ==> monmap_taken(o, fsid, epoch) == (
            o,
            Err::<MessageAction, MonitorError>(MonitorError::ForeignCluster),
        ),
{
}

/// A map of the managers replaces an older one, and no other map. It is published if it does.
pub proof fn law_mgrmap_replaces_an_older_one(o: OwnerView, epoch: u32)
    ensures
        ({
            let after = mgrmap_taken(o, epoch);
            &&& after.state.mgrmap == newer_of(o.state.mgrmap, epoch)
            &&& after.state.osdmap == o.state.osdmap
            &&& after.state.monmap == o.state.monmap
            &&& after.state.mgrmap != o.state.mgrmap ==> after.published == after.state
            &&& after.state.mgrmap == o.state.mgrmap ==> after == o
        }),
{
}

// ---------------------------------------------------------------------------
// Maps of the storage daemons
// ---------------------------------------------------------------------------

/// The map that a batch came to replaces an older one, and is published if it does. It ends a
/// refresh if the last full map of the batch is not older than the one that was asked for, and then,
/// and only then, all maps are subscribed to again.
pub proof fn law_batch_replaces_an_older_map(o: OwnerView, u: UpdateView)
    ensures
        ({
            let (after, action) = committing(o, u);
            &&& u.current matches Some(epoch) ==> after.state.osdmap == newer_of(
                o.state.osdmap,
                epoch,
            )
            &&& u.current is None ==> after.state.osdmap == o.state.osdmap
            &&& after.state.monmap == o.state.monmap
            &&& after.state.mgrmap == o.state.mgrmap
            &&& after.state.osdmap != o.state.osdmap ==> after.published == after.state
            &&& after.state.osdmap == o.state.osdmap ==> after.published == o.published
            &&& action is Resubscribe <==> o.refresh_epoch is Some && u.full is Some
                && u.full->0 >= o.refresh_epoch->0
            &&& action is Resubscribe ==> after.refresh_epoch is None
            &&& action is Nothing ==> after.refresh_epoch == o.refresh_epoch
        }),
{
}

/// A batch starts from the newest of the map at hand and its full maps, and with all its incremental
/// maps still to be applied.
pub proof fn law_batch_starts_from_the_newest_map(
    o: OwnerView,
    incrementals: Seq<u32>,
    full_maps: Seq<u32>,
    trim_lower_bound: u32,
    newest_map: u32,
    i: int,
)
    ensures
        ({
            let u = update_of(o, incrementals, full_maps, trim_lower_bound, newest_map);
            &&& u.incrementals == incrementals
            &&& u.next == 0
            &&& u.trim_lower_bound == trim_lower_bound
            &&& u.newest_map == newest_map
            &&& full_maps.len() == 0 ==> u.current == o.state.osdmap && u.full is None
            &&& full_maps.len() > 0 ==> u.full == Some(full_maps[full_maps.len() - 1])
            &&& o.state.osdmap matches Some(at) ==> u.current is Some && u.current->0 >= at
            &&& 0 <= i < full_maps.len() ==> u.current is Some && u.current->0 >= full_maps[i]
            &&& u.current == o.state.osdmap || (u.current is Some && full_maps.contains(
                u.current->0,
            ))
        }),
{
    law_newest_map_is_the_base(o.state.osdmap, full_maps, i);
}

/// The step that a batch stops at says what the incremental maps that are left are like: those that
/// were passed over are not newer than the current map. An incremental map is applied only to the
/// map of the epoch before it. A batch is committed only when none is left and the current map has
/// reached the epochs that the batch names. It has a gap only if the next map is too new, if there
/// is no map to apply it to, or if the epochs that it names were not reached.
pub proof fn law_batch_stops_for_a_reason(u: UpdateView)
    requires
        0 <= u.next <= u.incrementals.len(),
    ensures
        ({
            let (after, step) = update_step(u);
            let at = if u.current is Some {
                u.current->0 as int
            } else {
                0
            };
            &&& u.next <= after.next <= u.incrementals.len()
            &&& forall|i: int| u.next <= i < after.next ==> u.current is Some && #[trigger] u.incrementals[i] <= at
            &&& step matches UpdateStep::Apply { epoch } ==> after.next < u.incrementals.len()
                && u.incrementals[after.next] == epoch && u.current is Some && epoch == at + 1
            &&& step is Commit ==> after.next == u.incrementals.len() && at >= u.newest_map && at
                >= u.trim_lower_bound
            &&& step is Gap && after.next < u.incrementals.len() ==> u.current is None
                || u.incrementals[after.next] > at + 1
            &&& step is Gap && after.next == u.incrementals.len() ==> at < u.newest_map || at
                < u.trim_lower_bound
        }),
    decreases u.incrementals.len() - u.next,
{
    if u.next < u.incrementals.len() && u.current is Some && u.incrementals[u.next]
        <= u.current->0 {
        law_batch_stops_for_a_reason(UpdateView { next: u.next + 1, ..u });
    }
}

// ---------------------------------------------------------------------------
// Sessions
// ---------------------------------------------------------------------------

/// What is done after an event of a session, and after which events: errors are reported as they
/// came; all maps are subscribed to again after a refresh and when the time has come; a single full
/// map is asked for where a caller wants one and where maps are missing for the first time; a
/// session is closed by a stop and by an error of a message other than a missing map; and it is left
/// for good by a stop, for another cluster if the message was of one, and for another seed
/// otherwise.
pub proof fn law_events_are_answered(o: OwnerView, event: SessionEvent)
    ensures
        ({
            let r = reacting(o, event).1;
            let gap = event matches SessionEvent::Handled(Err(MonitorError::MapGap));
            let strange = event matches SessionEvent::Handled(Err(MonitorError::ForeignCluster));
            let refused = event matches SessionEvent::Handled(Err(_));
            let resubscribe = event matches SessionEvent::Handled(Ok(MessageAction::Resubscribe));
            let wanted = event matches SessionEvent::Refresh(Some(_));
            &&& r.report == match event {
                SessionEvent::Handled(Err(error)) => Some(error),
                SessionEvent::Failure(error) => Some(MonitorError::Session(error)),
                _ => None,
            }
            &&& r.subscribe == Some(SubscriptionKind::AllMaps) <==> resubscribe || event
                is SubscribeTimer
            &&& r.subscribe == Some(SubscriptionKind::FullOsdMap) <==> wanted || (gap
                && o.refresh_epoch is None)
            &&& r.restart_timer <==> event is SubscribeTimer
            &&& r.close <==> event is Stop || (refused && !gap)
            &&& r.leave == Some(SessionOutcome::Stop) <==> event is Stop
            &&& r.leave == Some(SessionOutcome::ForeignCluster) <==> strange
            &&& r.leave == Some(SessionOutcome::Failover) <==> event is Ended || event is Failure
                || (refused && !gap && !strange)
        }),
{
}

/// The full map that is waited for: after a gap one that is newer than the map at hand, where none
/// was waited for before; on request one that is not older than wanted, nor than any that is waited
/// for. Other events leave it as it is, and no event changes anything else.
pub proof fn law_refresh_waits_for_a_newer_map(o: OwnerView, event: SessionEvent)
    ensures
        ({
            let after = reacting(o, event).0;
            let gap = event matches SessionEvent::Handled(Err(MonitorError::MapGap));
            &&& after == (OwnerView { refresh_epoch: after.refresh_epoch, ..o })
            &&& gap && o.refresh_epoch is None && o.state.osdmap is None ==> after.refresh_epoch
                == Some(1u32)
            &&& gap && o.refresh_epoch is None && o.state.osdmap is Some && o.state.osdmap->0
                < u32::MAX ==> after.refresh_epoch is Some && after.refresh_epoch->0
                == o.state.osdmap->0 + 1
            &&& gap && o.refresh_epoch is None && o.state.osdmap == Some(u32::MAX)
                ==> after.refresh_epoch == Some(u32::MAX)
            &&& gap && o.refresh_epoch is Some ==> after.refresh_epoch == o.refresh_epoch
            &&& event matches SessionEvent::Refresh(Some(epoch)) ==> after.refresh_epoch is Some
                && after.refresh_epoch->0 >= epoch && (o.refresh_epoch is Some
                ==> after.refresh_epoch->0 >= o.refresh_epoch->0) && (after.refresh_epoch == Some(
                epoch,
            ) || after.refresh_epoch == o.refresh_epoch)
            &&& !gap && !(event matches SessionEvent::Refresh(Some(_))) ==> after.refresh_epoch
                == o.refresh_epoch
        }),
{
}

/// After a stop the client is closed. A session that is left for another seed ends nothing. A seed
/// of another cluster is remembered once, and ends the client when no other seed is left, and not
/// before.
pub proof fn law_sessions_end_the_client_rarely(
    o: OwnerView,
    address: SocketAddress,
    outcome: SessionOutcome,
)
    requires
        o.foreign_seeds.no_duplicates(),
        o.foreign_seeds.to_set().subset_of(addresses(o.config.seeds).to_set()),
        addresses(o.config.seeds).contains(address),
    ensures
        outcome is Stop ==> leaving(o, address, outcome) == (o, Some(MonitorError::Closed)),
        outcome is Failover ==> leaving(o, address, outcome) == (o, None::<MonitorError>),
        outcome is ForeignCluster ==> {
            let (after, end) = leaving(o, address, outcome);
            &&& after == (OwnerView { foreign_seeds: after.foreign_seeds, ..o })
            &&& after.foreign_seeds.no_duplicates()
            &&& after.foreign_seeds.to_set() == o.foreign_seeds.to_set().insert(address)
            &&& end == if after.foreign_seeds.to_set() == addresses(o.config.seeds).to_set() {
                Some(MonitorError::ForeignCluster)
            } else {
                None
            }
        },
{
    if outcome is ForeignCluster {
        let after = leaving(o, address, outcome).0;
        let found = after.foreign_seeds.to_set();
        let all = addresses(o.config.seeds).to_set();
        lemma_foreign_set(o.foreign_seeds, address);
        assert(found =~= o.foreign_seeds.to_set().insert(address));
        assert(found.subset_of(all));
        after.foreign_seeds.unique_seq_to_set();
        if found.len() == all.len() {
            vstd::set_lib::lemma_subset_equality(found, all);
        }
    }
}

proof fn lemma_foreign_set(s: Seq<SocketAddress>, a: SocketAddress)
    ensures
        s.push(a).to_set() == s.to_set().insert(a),
        s.contains(a) ==> s.to_set().insert(a) == s.to_set(),
        s.no_duplicates() && !s.contains(a) ==> s.push(a).no_duplicates(),
{
    assert forall|x: SocketAddress| s.push(a).to_set().contains(x) <==> s.to_set().insert(
        a,
    ).contains(x) by {
        if s.contains(x) {
            let i = choose|i: int| 0 <= i < s.len() && s[i] == x;
            assert(s.push(a)[i] == x);
        }
        if x == a {
            assert(s.push(a)[s.len() as int] == a);
        }
        if s.push(a).contains(x) && x != a {
            let i = choose|i: int| 0 <= i < s.push(a).len() && s.push(a)[i] == x;
            assert(s[i] == x);
        }
    }
    assert(s.push(a).to_set() =~= s.to_set().insert(a));
    assert(s.contains(a) ==> s.to_set().insert(a) =~= s.to_set());
}

} // verus!
