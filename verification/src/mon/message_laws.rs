//! What is asked of monitors reads back field by field, and what they say is read as they wrote it.

use super::messages::{
    ack_decoding, batch_decoding, batch_fault, batch_fields, front_fault, get_epochs,
    monmap_decoding, pool_decoding, pool_encoding, pool_operation_code, snapshot_decoding,
    subscribe_encoding, subscribe_front, subscription_encoder, MapIdentity, MessageError,
    MessageLimits, PoolOperation, PoolReplyView, Subscription,
};
use crate::maps::Limits as MapLimits;
use crate::msgr::message::MessageView;
use crate::wire::{
    concatenated, from_le64, get_i16, get_many, get_raw, get_text, get_u32, get_u64, get_u8,
    input, law_bytes, law_many, law_raw, law_text, law_u32, law_u64, law_u8, le16, le32, le64,
    prefixed, text, unsigned16, unsigned32, Input, WireError,
};
use vstd::prelude::*;
use vstd::utf8::encode_utf8;

verus! {

broadcast use {crate::wire::group_integers, crate::wire::group_reads};

/// A message with this front and nothing else.
pub open spec fn carries(m: MessageView, message_type: u16, front: Seq<u8>) -> bool {
    &&& m.header.message_type == message_type
    &&& m.front == front
    &&& m.middle.len() == 0
    &&& m.data.len() == 0
    &&& m.lengths.front == front.len()
    &&& m.lengths.middle == 0
    &&& m.lengths.data == 0
}

/// A message that must be all front is accepted exactly if it is, if its lengths say so, if it is of
/// the expected type and if it is not too long.
pub proof fn law_front_messages_are_whole(m: MessageView, message_type: u16, max_bytes: u32)
    ensures
        front_fault(m, message_type, max_bytes) is None <==> carries(m, message_type, m.front)
            && m.front.len() <= max_bytes && max_bytes > 0,
{
}

// ---------------------------------------------------------------------------
// Snapshots of pools
// ---------------------------------------------------------------------------

/// Each operation on the snapshots of a pool has a code of its own.
pub proof fn law_pool_operations_are_told_apart(a: PoolOperation, b: PoolOperation)
    ensures
        pool_operation_code(a) == pool_operation_code(b) <==> a == b,
        pool_operation_code(a) == 0x11 <==> a == PoolOperation::Create,
        pool_operation_code(a) == 0x12 <==> a == PoolOperation::Delete,
        pool_operation_code(a) == 0x21 <==> a == PoolOperation::CreateSelfManaged,
        pool_operation_code(a) == 0x22 <==> a == PoolOperation::DeleteSelfManaged,
{
}

/// A request on the snapshots of a pool says which cluster, pool, operation, snapshot and name it is
/// about, and which map the client has.
pub proof fn law_pool_request_reads_back(
    fsid: Seq<u8>,
    have_version: u64,
    pool: u32,
    operation: PoolOperation,
    snapshot: u64,
    name: Seq<char>,
    max_bytes: u32,
)
    requires
        fsid.len() == 16,
    ensures
        pool_encoding(fsid, have_version, pool, operation, snapshot, name, max_bytes) matches Ok(m)
            ==> {
            let (version_read, d1) = get_u64(input(m.front));
            let (monitor_read, d2) = get_i16(d1);
            let (session_read, d3) = get_u64(d2);
            let (fsid_read, d4) = get_raw(d3, 16);
            let (pool_read, d5) = get_u32(d4);
            let (code_read, d6) = get_u32(d5);
            let (owner_read, d7) = get_u64(d6);
            let (snapshot_read, d8) = get_u64(d7);
            let (name_read, d9) = get_text(d8);
            let (pad_read, d10) = get_u8(d9);
            let (rule_read, d11) = get_i16(d10);
            &&& carries(m, 49, m.front)
            &&& m.header.version == 4
            &&& m.header.compat_version == 2
            &&& version_read == have_version
            &&& monitor_read == -1
            &&& session_read == 0
            &&& fsid_read == fsid
            &&& pool_read == pool
            &&& operation is Create ==> code_read == 0x11
            &&& operation is Delete ==> code_read == 0x12
            &&& operation is CreateSelfManaged ==> code_read == 0x21
            &&& operation is DeleteSelfManaged ==> code_read == 0x22
            &&& owner_read == 0
            &&& snapshot_read == snapshot
            &&& name_read == name
            &&& pad_read == 0
            &&& rule_read == 0
            &&& d11 == input(Seq::empty())
        },
{
    if let Ok(m) = pool_encoding(
        fsid,
        have_version,
        pool,
        operation,
        snapshot,
        name,
        max_bytes,
    ) {
        let rule = le16(unsigned16(0));
        let after_name = seq![0u8] + rule;
        let after_fsid = le32(pool) + (le32(pool_operation_code(operation)) + (le64(0) + (le64(
            snapshot,
        ) + (text(name) + after_name))));
        assert(rule =~= rule + Seq::<u8>::empty());
        assert(m.front =~= le64(have_version) + (le16(unsigned16((-1int) as i16)) + (le64(0) + (fsid
            + after_fsid))));
        assert(text(name).len() == 4 + encode_utf8(name).len());
        assert(m.front.len() >= text(name).len());
        law_raw(fsid, after_fsid);
    }
}

/// A request on the snapshots of a pool is made exactly if a snapshot of the pool itself has a name,
/// a self-managed one has none, only one that is to be deleted by number has a number, and the
/// request is not too long.
pub proof fn law_pool_request_is_made_where_it_makes_sense(
    fsid: Seq<u8>,
    have_version: u64,
    pool: u32,
    operation: PoolOperation,
    snapshot: u64,
    name: Seq<char>,
    max_bytes: u32,
)
    requires
        fsid.len() == 16,
    ensures
        pool_encoding(fsid, have_version, pool, operation, snapshot, name, max_bytes) is Ok <==> {
            &&& (name.len() > 0 <==> operation is Create || operation is Delete)
            &&& (snapshot != 0 <==> operation is DeleteSelfManaged)
            &&& 65 + encode_utf8(name).len() <= max_bytes
        },
        pool_encoding(fsid, have_version, pool, operation, snapshot, name, max_bytes) matches Err(e)
            ==> (e == MessageError::Wire(WireError::LimitExceeded) <==> {
            &&& (name.len() > 0 <==> operation is Create || operation is Delete)
            &&& (snapshot != 0 <==> operation is DeleteSelfManaged)
            &&& max_bytes > 0
        }) && (e == MessageError::Wire(WireError::LimitExceeded) || e == MessageError::Wire(
            WireError::Malformed,
        )),
{
}

/// What a monitor answers on the snapshots of a pool, behind the map's version and the session.
pub open spec fn pool_reply_front(
    map_version: u64,
    monitor: i16,
    session: u64,
    reply: PoolReplyView,
    with_data: bool,
) -> Seq<u8> {
    le64(map_version) + (le16(unsigned16(monitor)) + (le64(session) + (reply.fsid + (le32(
        unsigned32(reply.result),
    ) + (le32(reply.epoch) + if with_data {
        seq![1u8] + prefixed(reply.response_data)
    } else {
        seq![0u8]
    })))))
}

/// An answer on the snapshots of a pool is read as it was written.
pub proof fn law_pool_reply_reads_back(
    m: MessageView,
    map_version: u64,
    monitor: i16,
    session: u64,
    reply: PoolReplyView,
    with_data: bool,
    max_bytes: u32,
)
    requires
        reply.fsid.len() == 16,
        !with_data ==> reply.response_data.len() == 0,
        carries(m, 48, pool_reply_front(map_version, monitor, session, reply, with_data)),
        m.header.compat_version <= 1,
        m.front.len() <= max_bytes,
    ensures
        pool_decoding(m, max_bytes) == Ok::<PoolReplyView, MessageError>(reply),
{
    let none = Seq::<u8>::empty();
    let data = prefixed(reply.response_data);
    let tail = if with_data {
        seq![1u8] + data
    } else {
        seq![0u8]
    };
    let after = le32(unsigned32(reply.result)) + (le32(reply.epoch) + tail);
    assert(data =~= data + none);
    assert(seq![0u8] =~= seq![0u8] + none);
    assert(m.front =~= le64(map_version) + (le16(unsigned16(monitor)) + (le64(session) + (
    reply.fsid + after))));
    law_raw(reply.fsid, after);
    if with_data {
        assert(m.front.len() >= data.len());
        law_u8(1, data);
        law_bytes(reply.response_data, none);
    } else {
        law_u8(0, none);
        assert(reply.response_data =~= none);
    }
}

/// The number of a new snapshot is read as it was written, in eight bytes and no more. It is never
/// zero.
pub proof fn law_snapshot_number_reads_back(data: Seq<u8>, snapshot: u64, max_bytes: nat)
    ensures
        snapshot != 0 && max_bytes >= 8 ==> snapshot_decoding(le64(snapshot), max_bytes) == Ok::<
            u64,
            MessageError,
        >(snapshot),
        snapshot_decoding(data, max_bytes) matches Ok(found) ==> found != 0 && data.len() == 8
            && found == from_le64(data) && max_bytes >= 8,
{
    let none = Seq::<u8>::empty();
    assert(le64(snapshot) =~= le64(snapshot) + none);
    if let Ok(found) = snapshot_decoding(data, max_bytes) {
        reveal(get_u64);
        assert(data.take(8) =~= data);
    }
}

// ---------------------------------------------------------------------------
// Subscriptions
// ---------------------------------------------------------------------------

/// The next subscription of the input.
pub open spec fn subscription_decoder() -> spec_fn(Input) -> Result<
    ((Seq<char>, Subscription), Input),
    WireError,
> {
    |d: Input|
        {
            let (name, d1) = get_text(d);
            let (start, d2) = get_u64(d1);
            let (flags, d3) = get_u8(d2);
            Ok(((name, Subscription { start, flags }), d3))
        }
}

/// A subscription says of each map, in the order given, from which epoch on and whether once, and
/// then which host asks.
pub proof fn law_subscribe_reads_back(
    entries: Seq<(Seq<char>, Subscription)>,
    hostname: Seq<char>,
    max_bytes: u32,
)
    ensures
        subscribe_encoding(entries, hostname, max_bytes) is Ok <==> subscribe_front(
            entries,
            hostname,
        ).len() <= max_bytes && max_bytes > 0,
        subscribe_encoding(entries, hostname, max_bytes) matches Err(error) ==> error
            == MessageError::Wire(WireError::LimitExceeded),
        subscribe_encoding(entries, hostname, max_bytes) matches Ok(m) ==> {
            let (count, d1) = get_u32(input(m.front));
            let read = get_many(d1, entries.len(), subscription_decoder());
            &&& carries(m, 15, m.front)
            &&& m.header.version == 3
            &&& m.header.compat_version == 1
            &&& count == entries.len()
            &&& read is Ok
            &&& read->Ok_0.0 == entries
            &&& get_text(read->Ok_0.1) == (hostname, input(Seq::empty()))
        },
{
    if let Ok(m) = subscribe_encoding(entries, hostname, max_bytes) {
        let none = Seq::<u8>::empty();
        let all = concatenated(entries, subscription_encoder());
        let host = text(hostname);
        lemma_subscription_sizes(entries);
        assert(host =~= host + none);
        assert(host.len() == 4 + encode_utf8(hostname).len());
        assert forall|i: int, rest: Seq<u8>| 0 <= i < entries.len() implies #[trigger] (
        subscription_decoder())(input(subscription_encoder()(entries[i]) + rest)) == Ok::<
            ((Seq<char>, Subscription), Input),
            WireError,
        >((entries[i], input(rest))) by {
            let e = entries[i];
            let flags = seq![e.1.flags] + rest;
            assert(subscription_encoder()(e) + rest =~= text(e.0) + (le64(e.1.start) + flags));
            law_text(e.0, le64(e.1.start) + flags);
            law_u64(e.1.start, flags);
            law_u8(e.1.flags, rest);
        }
        law_many(entries, subscription_encoder(), subscription_decoder(), host);
        law_u32(entries.len() as u32, all + host);
        law_text(hostname, none);
    }
}

proof fn lemma_subscription_sizes(entries: Seq<(Seq<char>, Subscription)>)
    ensures
        entries.len() <= concatenated(entries, subscription_encoder()).len(),
        forall|i: int|
            0 <= i < entries.len() ==> encode_utf8((#[trigger] entries[i]).0).len()
                <= concatenated(entries, subscription_encoder()).len(),
    decreases entries.len(),
{
    if entries.len() > 0 {
        let shorter = entries.drop_last();
        lemma_subscription_sizes(shorter);
        let last = entries.last();
        assert(subscription_encoder()(last).len() >= 13 + encode_utf8(last.0).len());
        assert forall|i: int| 0 <= i < entries.len() implies encode_utf8(
            (#[trigger] entries[i]).0,
        ).len() <= concatenated(entries, subscription_encoder()).len() by {
            if i < shorter.len() {
                assert(shorter[i] == entries[i]);
            }
        }
    }
}

/// The acknowledgement of a subscription is read as it was written.
pub proof fn law_subscribe_ack_reads_back(
    m: MessageView,
    interval_seconds: u32,
    fsid: Seq<u8>,
    max_bytes: u32,
)
    requires
        fsid.len() == 16,
        carries(m, 16, le32(interval_seconds) + fsid),
    ensures
        max_bytes >= 20 ==> ack_decoding(m, max_bytes) == Ok::<(u32, Seq<u8>), MessageError>(
            (interval_seconds, fsid),
        ),
{
    assert(fsid =~= fsid + Seq::<u8>::empty());
    law_raw(fsid, Seq::<u8>::empty());
}

// ---------------------------------------------------------------------------
// Maps
// ---------------------------------------------------------------------------

/// The monitor map that a message carries is read as it was written.
pub proof fn law_monmap_reads_back(m: MessageView, map: Seq<u8>, limits: MapLimits)
    requires
        map.len() + 4 <= limits.max_bytes,
        carries(m, 4, prefixed(map)),
    ensures
        monmap_decoding(m, limits) == Ok::<Seq<u8>, MessageError>(map),
{
    assert(prefixed(map) =~= prefixed(map) + Seq::<u8>::empty());
}

/// A map of an epoch on the wire.
pub open spec fn epoch_encoder() -> spec_fn((u32, Seq<u8>)) -> Seq<u8> {
    |entry: (u32, Seq<u8>)| le32(entry.0) + prefixed(entry.1)
}

/// Maps of epochs on the wire, behind their number.
pub open spec fn epochs_bytes(entries: Seq<(u32, Seq<u8>)>) -> Seq<u8> {
    le32(entries.len() as u32) + concatenated(entries, epoch_encoder())
}

/// Each map is there under its epoch, and nothing else is.
pub open spec fn holds(maps: Map<u32, Seq<u8>>, entries: Seq<(u32, Seq<u8>)>) -> bool {
    &&& forall|i: int|
        0 <= i < entries.len() ==> maps.contains_key((#[trigger] entries[i]).0)
            && maps[entries[i].0] == entries[i].1
    &&& forall|epoch: u32| #[trigger]
        maps.contains_key(epoch) ==> exists|i: int|
            0 <= i < entries.len() && (#[trigger] entries[i]).0 == epoch
}

pub open spec fn distinct_epochs(entries: Seq<(u32, Seq<u8>)>) -> bool {
    forall|i: int, j: int|
        0 <= i < j < entries.len() ==> (#[trigger] entries[i]).0 != (#[trigger] entries[j]).0
}

proof fn lemma_epochs(entries: Seq<(u32, Seq<u8>)>, tail: Seq<u8>)
    requires
        distinct_epochs(entries),
        concatenated(entries, epoch_encoder()).len() <= u32::MAX,
    ensures
        8 * entries.len() <= concatenated(entries, epoch_encoder()).len(),
        get_epochs(input(concatenated(entries, epoch_encoder()) + tail), entries.len()) matches Ok(
            read,
        ) && read.1 == input(tail) && holds(read.0, entries),
    decreases entries.len(),
{
    let all = concatenated(entries, epoch_encoder());
    if entries.len() == 0 {
        assert(all + tail =~= tail);
    } else {
        let shorter = entries.drop_last();
        let last = entries.last();
        let blob = prefixed(last.1);
        assert(all.len() == concatenated(shorter, epoch_encoder()).len() + 8 + last.1.len());
        lemma_epochs(shorter, le32(last.0) + (blob + tail));
        assert(all + tail =~= concatenated(shorter, epoch_encoder()) + (le32(last.0) + (blob
            + tail)));
        law_u32(last.0, blob + tail);
        law_bytes(last.1, tail);
        let before = get_epochs(input(all + tail), shorter.len())->Ok_0.0;
        let after = before.insert(last.0, last.1);
        assert(!before.contains_key(last.0));
        assert forall|i: int| 0 <= i < entries.len() implies after.contains_key(
            (#[trigger] entries[i]).0,
        ) && after[entries[i].0] == entries[i].1 by {
            if i < shorter.len() {
                assert(shorter[i] == entries[i]);
                assert(entries[i].0 != entries[entries.len() - 1].0);
            }
        }
        assert forall|epoch: u32| #[trigger] after.contains_key(epoch) implies exists|i: int|
            0 <= i < entries.len() && (#[trigger] entries[i]).0 == epoch by {
            if epoch == last.0 {
                assert(entries[entries.len() - 1].0 == epoch);
            } else {
                let i = choose|i: int| 0 <= i < shorter.len() && (#[trigger] shorter[i]).0 == epoch;
                assert(entries[i].0 == epoch);
            }
        }
    }
}

/// What a monitor sends of the maps of the storage daemons.
pub open spec fn batch_front(
    fsid: Seq<u8>,
    incrementals: Seq<(u32, Seq<u8>)>,
    full_maps: Seq<(u32, Seq<u8>)>,
    trim_lower_bound: u32,
    newest_map: u32,
    with_gap: bool,
) -> Seq<u8> {
    fsid + (epochs_bytes(incrementals) + (epochs_bytes(full_maps) + (le32(trim_lower_bound) + (le32(
        newest_map,
    ) + if with_gap {
        le32(0)
    } else {
        Seq::empty()
    }))))
}

/// The maps of the storage daemons are read as they were written: incremental maps as such, full
/// maps as such, each under its epoch.
#[verifier::rlimit(40)]
pub proof fn law_batch_reads_back(
    m: MessageView,
    fsid: Seq<u8>,
    incrementals: Seq<(u32, Seq<u8>)>,
    full_maps: Seq<(u32, Seq<u8>)>,
    trim_lower_bound: u32,
    newest_map: u32,
    limits: MessageLimits,
)
    requires
        fsid.len() == 16,
        distinct_epochs(incrementals),
        distinct_epochs(full_maps),
        0 < limits.max_maps,
        incrementals.len() <= limits.max_maps,
        full_maps.len() <= limits.max_maps,
        m.header.version >= 3,
        m.header.compat_version <= 4,
        carries(
            m,
            41,
            batch_front(
                fsid,
                incrementals,
                full_maps,
                trim_lower_bound,
                newest_map,
                m.header.version >= 4,
            ),
        ),
        m.front.len() <= limits.max_bytes,
    ensures
        batch_decoding(m, limits) matches Ok(batch) && {
            &&& batch.fsid == fsid
            &&& holds(batch.incrementals, incrementals)
            &&& holds(batch.full_maps, full_maps)
            &&& batch.trim_lower_bound == trim_lower_bound
            &&& batch.newest_map == newest_map
        },
{
    reveal(batch_fields);
    let none = Seq::<u8>::empty();
    let gap = if m.header.version >= 4 {
        le32(0)
    } else {
        none
    };
    assert(le32(0) =~= le32(0) + none);
    let d_end = le32(trim_lower_bound) + (le32(newest_map) + gap);
    let fulls = concatenated(full_maps, epoch_encoder());
    let incs = concatenated(incrementals, epoch_encoder());
    let after_incs = epochs_bytes(full_maps) + d_end;
    let after_fsid = epochs_bytes(incrementals) + after_incs;
    assert(m.front =~= fsid + after_fsid);
    law_raw(fsid, after_fsid);
    assert(after_fsid =~= le32(incrementals.len() as u32) + (incs + after_incs));
    assert(after_incs =~= le32(full_maps.len() as u32) + (fulls + d_end));
    assert(incs.len() <= m.front.len());
    assert(fulls.len() <= m.front.len());
    lemma_epochs(incrementals, after_incs);
    lemma_epochs(full_maps, d_end);
    law_u32(incrementals.len() as u32, incs + after_incs);
    law_u32(full_maps.len() as u32, fulls + d_end);
    law_u32(trim_lower_bound, le32(newest_map) + gap);
    law_u32(newest_map, gap);
    law_u32(0, none);
}

/// A batch of maps is accepted exactly if every map could be read and is of the cluster that the
/// batch is of and of the epoch that it came under.
pub proof fn law_batch_maps_are_what_they_came_as(fsid: Seq<u8>, maps: Seq<MapIdentity>)
    ensures
        batch_fault(fsid, maps) is None <==> forall|i: int|
            0 <= i < maps.len() ==> (#[trigger] maps[i]).fault is None && maps[i].fsid@ == fsid
                && maps[i].epoch == maps[i].expected_epoch,
    decreases maps.len(),
{
    if maps.len() > 0 {
        let shorter = maps.drop_last();
        law_batch_maps_are_what_they_came_as(fsid, shorter);
        assert(maps.last() == maps[maps.len() - 1]);
        if batch_fault(fsid, maps) is None {
            assert forall|i: int| 0 <= i < maps.len() implies (#[trigger] maps[i]).fault is None
                && maps[i].fsid@ == fsid && maps[i].epoch == maps[i].expected_epoch by {
                if i < shorter.len() {
                    assert(shorter[i] == maps[i]);
                }
            }
        }
        if forall|i: int|
            0 <= i < maps.len() ==> (#[trigger] maps[i]).fault is None && maps[i].fsid@ == fsid
                && maps[i].epoch == maps[i].expected_epoch {
            assert forall|i: int| 0 <= i < shorter.len() implies (#[trigger] shorter[i]).fault
                is None && shorter[i].fsid@ == fsid && shorter[i].epoch
                == shorter[i].expected_epoch by {
                assert(shorter[i] == maps[i]);
            }
        }
    }
}

} // verus!
