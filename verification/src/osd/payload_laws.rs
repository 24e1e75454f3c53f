//! What goes along with operations reads back field by field, and what comes back with them is read
//! as it was written: keys and values, copies, watches, locks, listings and commands.

use super::backoff::{hobject_bytes, HObjectView, law_hobject_reads_back};
use super::command::{
    command_encoding, command_front, text_encoder, CommandRequest, Error as CommandError,
};
use super::enumeration::{
    list_entry_decoder, listing, page_decoding as listing_decoding, ListEntryView, ListPageView,
};
use super::lock::{
    break_payload, get_holder, get_strict, holder_decoder, holder_identity, holder_info,
    info_decoding, lock_payload, unlock_payload, HolderView, InfoView, Moment, Request,
};
use super::messages::OperationView;
use super::metadata::{
    ascending, comparison_bytes, get_ascending, key_encoder, keys_encoding, list_request_bytes,
    map_decoding, map_encoding, page_decoding, range_bytes, sorted_entries, EntryView,
};
use super::special::{
    checksum_fault, copy_bytes, cut, get_ranges, in_order, sparse_decoding, total_length,
    CopySource,
};
use super::watch::{
    ack_bytes, acknowledgment_decoder, notification_decoding, notify_bytes, notify_decoding,
    timeout_decoder, watcher_decoder, watcher_fields, watchers_decoding, AcknowledgmentView,
    NotificationView, Timeout, WatcherView,
};
use crate::msgr::message::MessageView;
use crate::protocol::address::{address_bytes, address_text, law_address_reads_back, AddressView};
use crate::types::SparseExtentView;
use crate::wire::{
    bool_byte, bytes_less, concatenated, get_bytes, get_i32, get_i64, get_many, get_raw,
    get_text, get_u32, get_u64, get_u8, get_versioned, input, law_bytes, law_many, law_raw,
    law_text, law_u32, law_u64, law_u8, law_versioned, le32, le64, prefixed, text, unsigned32,
    unsigned64, versioned, Input, WireError,
};
use vstd::prelude::*;
use vstd::utf8::encode_utf8;

verus! {

broadcast use {crate::wire::group_integers, crate::wire::group_reads};

// ---------------------------------------------------------------------------
// Keys and values
// ---------------------------------------------------------------------------

/// A listing of keys starts after the key that is given, goes no further than the limit, and is of
/// keys with any beginning.
pub proof fn law_list_request_reads_back(after: Seq<u8>, limit: u64)
    requires
        after.len() <= u32::MAX,
    ensures
        ({
            let (after_read, d1) = get_bytes(input(list_request_bytes(after, limit)));
            let (limit_read, d2) = get_u64(d1);
            &&& after_read == after
            &&& limit_read == limit
            &&& get_bytes(d2) == (Seq::<u8>::empty(), input(Seq::empty()))
        }),
{
    let none = Seq::<u8>::empty();
    assert(prefixed(none) =~= prefixed(none) + none);
    law_bytes(none, none);
}

/// A range goes from its first key to the key that ends it.
pub proof fn law_range_reads_back(begin: Seq<u8>, end: Seq<u8>)
    requires
        begin.len() <= u32::MAX,
        end.len() <= u32::MAX,
    ensures
        get_bytes(input(range_bytes(begin, end))) == (begin, input(prefixed(end))),
        get_bytes(input(prefixed(end))) == (end, input(Seq::empty())),
{
    assert(prefixed(end) =~= prefixed(end) + Seq::<u8>::empty());
    law_bytes(end, Seq::empty());
}

/// A comparison is one, of the value that is given with that of the key that is given, in the way
/// that is given.
pub proof fn law_comparison_reads_back(key: Seq<u8>, value: Seq<u8>, comparison: i32)
    requires
        key.len() <= u32::MAX,
        value.len() <= u32::MAX,
    ensures
        ({
            let (count, d1) = get_u32(input(comparison_bytes(key, value, comparison)));
            let (key_read, d2) = get_bytes(d1);
            let (value_read, d3) = get_bytes(d2);
            &&& count == 1
            &&& key_read == key
            &&& value_read == value
            &&& get_i32(d3) == (comparison, input(Seq::empty()))
        }),
{
    let last = le32(unsigned32(comparison));
    assert(last =~= last + Seq::<u8>::empty());
}

/// Keys and their values on the wire, one after the other.
pub open spec fn pairs_bytes(entries: Seq<EntryView>) -> Seq<u8>
    decreases entries.len(),
{
    if entries.len() == 0 {
        Seq::empty()
    } else {
        pairs_bytes(entries.drop_last()) + (prefixed(entries.last().key) + prefixed(
            entries.last().value,
        ))
    }
}

proof fn lemma_pairs(entries: Seq<EntryView>, tail: Seq<u8>)
    requires
        ascending(entries),
        pairs_bytes(entries).len() <= u32::MAX,
    ensures
        get_ascending(input(pairs_bytes(entries) + tail), entries.len()) == Ok::<
            (Seq<EntryView>, Input),
            WireError,
        >((entries, input(tail))),
        8 * entries.len() <= pairs_bytes(entries).len(),
    decreases entries.len(),
{
    let all = pairs_bytes(entries);
    if entries.len() == 0 {
        assert(all + tail =~= tail);
        assert(entries =~= Seq::empty());
    } else {
        let shorter = entries.drop_last();
        let last = entries.last();
        let t1 = prefixed(last.value) + tail;
        let t0 = prefixed(last.key) + t1;
        assert(all.len() == pairs_bytes(shorter).len() + 8 + last.key.len() + last.value.len());
        lemma_pairs(shorter, t0);
        assert(all + tail =~= pairs_bytes(shorter) + t0);
        law_bytes(last.key, t1);
        law_bytes(last.value, tail);
        if shorter.len() > 0 {
            assert(shorter.last() == entries[entries.len() - 2]);
            assert(bytes_less(entries[entries.len() - 2].key, entries[entries.len() - 1].key));
        }
        assert(shorter.push(last) =~= entries);
        assert(last == (EntryView { key: last.key, value: last.value }));
    }
}

/// Keys and values are read as they were written, and so is whether there are more.
pub proof fn law_keys_and_values_read_back(
    entries: Seq<EntryView>,
    more: bool,
    max_bytes: nat,
    max_entries: nat,
)
    requires
        ascending(entries),
        entries.len() <= max_entries,
        5 + pairs_bytes(entries).len() <= u32::MAX,
        5 + pairs_bytes(entries).len() <= max_bytes,
    ensures
        map_decoding(
            le32(entries.len() as u32) + pairs_bytes(entries),
            max_bytes,
            max_entries,
        ) == Ok::<Seq<EntryView>, WireError>(entries),
        page_decoding(
            le32(entries.len() as u32) + (pairs_bytes(entries) + seq![
                if more {
                    1u8
                } else {
                    0u8
                },
            ]),
            max_bytes,
            max_entries,
        ) == Ok::<(Seq<EntryView>, bool), WireError>((entries, more)),
{
    let none = Seq::<u8>::empty();
    let all = pairs_bytes(entries);
    let flag = seq![
        if more {
            1u8
        } else {
            0u8
        },
    ];
    assert(all =~= all + none);
    assert(flag =~= bool_byte(more) + none);
    lemma_pairs(entries, none);
    lemma_pairs(entries, flag);
    law_u32(entries.len() as u32, all);
    law_u32(entries.len() as u32, all + flag);
    crate::wire::law_bool(more, none);
}

/// What is written of keys and values is each key with its value, in the order of the keys.
pub proof fn law_map_is_written_by_keys(entries: Seq<EntryView>, max_bytes: nat)
    requires
        map_encoding(entries, max_bytes) is Ok,
    ensures
        map_encoding(entries, max_bytes)->Ok_0 == le32(entries.len() as u32) + pairs_bytes(
            sorted_entries(entries),
        ),
        ascending(sorted_entries(entries)),
        sorted_entries(entries).to_multiset() == entries.to_multiset(),
{
    super::metadata::law_sorted_entries(entries);
    lemma_same_pairs(sorted_entries(entries));
}

proof fn lemma_same_pairs(entries: Seq<EntryView>)
    ensures
        concatenated(entries, super::metadata::entry_encoder()) == pairs_bytes(entries),
    decreases entries.len(),
{
    if entries.len() > 0 {
        lemma_same_pairs(entries.drop_last());
    }
}

pub open spec fn bytes_decoder() -> spec_fn(Input) -> Result<(Seq<u8>, Input), WireError> {
    |d: Input| Ok(get_bytes(d))
}

/// Keys are written in order, each once, behind their number.
pub proof fn law_keys_read_back(keys: Seq<EntryView>, max_bytes: nat)
    requires
        keys_encoding(keys, max_bytes) is Ok,
    ensures
        ({
            let (count, d1) = get_u32(input(keys_encoding(keys, max_bytes)->Ok_0));
            let read = get_many(d1, keys.len(), bytes_decoder());
            &&& count == keys.len()
            &&& read is Ok
            &&& read->Ok_0.1 == input(Seq::empty())
            &&& read->Ok_0.0.len() == keys.len()
            &&& forall|i: int|
                0 <= i < keys.len() ==> #[trigger] read->Ok_0.0[i] == sorted_entries(keys)[i].key
        }),
        ascending(sorted_entries(keys)),
        sorted_entries(keys).to_multiset() == keys.to_multiset(),
{
    super::metadata::law_sorted_entries(keys);
    let sorted = sorted_entries(keys);
    let none = Seq::<u8>::empty();
    let all = concatenated(sorted, key_encoder());
    assert(all =~= all + none);
    lemma_keys(sorted, none);
    law_u32(sorted.len() as u32, all);
}

proof fn lemma_keys(keys: Seq<EntryView>, tail: Seq<u8>)
    requires
        concatenated(keys, key_encoder()).len() <= u32::MAX,
    ensures
        get_many(input(concatenated(keys, key_encoder()) + tail), keys.len(), bytes_decoder())
            == Ok::<(Seq<Seq<u8>>, Input), WireError>(
            (Seq::new(keys.len(), |i: int| keys[i].key), input(tail)),
        ),
    decreases keys.len(),
{
    let all = concatenated(keys, key_encoder());
    let read = Seq::new(keys.len(), |i: int| keys[i].key);
    if keys.len() == 0 {
        assert(all + tail =~= tail);
        assert(read =~= Seq::empty());
    } else {
        let shorter = keys.drop_last();
        let last = prefixed(keys.last().key);
        assert(all == concatenated(shorter, key_encoder()) + last);
        lemma_keys(shorter, last + tail);
        assert(all + tail =~= concatenated(shorter, key_encoder()) + (last + tail));
        law_bytes(keys.last().key, tail);
        assert(read =~= Seq::new(shorter.len(), |i: int| shorter[i].key).push(keys.last().key));
    }
}

// ---------------------------------------------------------------------------
// Copies, sparse reads and checksums
// ---------------------------------------------------------------------------

/// A copy names the object that it is made from and its place, and what it takes over of a
/// truncation.
#[verifier::rlimit(40)]
pub proof fn law_copy_source_reads_back(source: CopySource<'_>, truncate: Option<(u32, u64)>)
    requires
        source.object@.len() <= u32::MAX,
        source.locator@.len() + source.namespace@.len() + 28 <= u32::MAX,
    ensures
        ({
            let (object_read, d1) = get_bytes(input(copy_bytes(source, truncate)));
            let (version, place, d2) = get_versioned(d1, 6);
            let (pool_read, p1) = get_i64(place);
            let (preferred_read, p2) = get_i32(p1);
            let (locator_read, p3) = get_bytes(p2);
            let (namespace_read, p4) = get_bytes(p3);
            &&& object_read == source.object@
            &&& version == 6
            &&& pool_read == source.pool
            &&& preferred_read == -1
            &&& locator_read == source.locator@
            &&& namespace_read == source.namespace@
            &&& get_i64(p4) == (-1i64, input(Seq::empty()))
            &&& truncate is None ==> d2 == input(Seq::empty())
            &&& truncate matches Some((sequence, size)) ==> get_u32(d2).0 == sequence && get_u64(
                get_u32(d2).1,
            ) == (size, input(Seq::empty()))
        }),
{
    let none = Seq::<u8>::empty();
    let minus = le64(unsigned64((-1int) as i64));
    let place = super::messages::locator_payload(source.pool, source.locator@, source.namespace@);
    let tail = match truncate {
        Some((sequence, size)) => le32(sequence) + le64(size),
        None => none,
    };
    assert(minus =~= minus + none);
    if let Some((sequence, size)) = truncate {
        assert(le64(size) =~= le64(size) + none);
    }
    law_bytes(source.object@, versioned(6, 3, place) + tail);
    law_versioned(6, 3, place, 6, tail);
}

/// The places and the lengths of extents on the wire.
pub open spec fn extents_bytes(extents: Seq<SparseExtentView>) -> Seq<u8>
    decreases extents.len(),
{
    if extents.len() == 0 {
        Seq::empty()
    } else {
        extents_bytes(extents.drop_last()) + (le64(extents.last().offset) + le64(
            extents.last().data.len() as u64,
        ))
    }
}

/// The data of extents, one after the other.
pub open spec fn extents_data(extents: Seq<SparseExtentView>) -> Seq<u8>
    decreases extents.len(),
{
    if extents.len() == 0 {
        Seq::empty()
    } else {
        extents_data(extents.drop_last()) + extents.last().data
    }
}

pub open spec fn ranges_of(extents: Seq<SparseExtentView>) -> Seq<(u64, u64)> {
    Seq::new(extents.len(), |i: int| (extents[i].offset, extents[i].data.len() as u64))
}

proof fn lemma_extents(extents: Seq<SparseExtentView>, start: u64, end: u64, tail: Seq<u8>)
    requires
        in_order(extents, start, end as int),
        extents_data(extents).len() <= u32::MAX,
    ensures
        get_ranges(input(extents_bytes(extents) + tail), extents.len(), start, end) == Ok::<
            (Seq<(u64, u64)>, Input),
            WireError,
        >((ranges_of(extents), input(tail))),
        total_length(ranges_of(extents)) == extents_data(extents).len(),
        extents_bytes(extents).len() == 16 * extents.len(),
    decreases extents.len(),
{
    let all = extents_bytes(extents);
    if extents.len() == 0 {
        assert(all + tail =~= tail);
        assert(ranges_of(extents) =~= Seq::empty());
    } else {
        let shorter = extents.drop_last();
        let last = extents.last();
        let length = last.data.len() as u64;
        let t1 = le64(length) + tail;
        let t0 = le64(last.offset) + t1;
        assert(last == extents[extents.len() - 1]);
        assert(in_order(shorter, start, end as int)) by {
            assert forall|i: int| 0 <= i < shorter.len() implies {
                let e = #[trigger] shorter[i];
                start <= e.offset && e.data.len() > 0 && e.offset + e.data.len() <= end
            } by {
                assert(shorter[i] == extents[i]);
            }
            assert forall|i: int, j: int| 0 <= i < j < shorter.len() implies (
            #[trigger] shorter[i]).offset + shorter[i].data.len() <= (
            #[trigger] shorter[j]).offset by {
                assert(extents[i].offset + extents[i].data.len() <= extents[j].offset);
            }
        }
        lemma_extents(shorter, start, end, t0);
        assert(all + tail =~= extents_bytes(shorter) + t0);
        law_u64(last.offset, t1);
        law_u64(length, tail);
        assert(ranges_of(extents) =~= ranges_of(shorter).push((last.offset, length)));
        assert(ranges_of(extents).drop_last() =~= ranges_of(shorter));
        if shorter.len() > 0 {
            let k = extents.len() - 2;
            assert(ranges_of(shorter).last() == (extents[k].offset, extents[k].data.len() as u64));
            assert(extents[k].offset + extents[k].data.len() <= extents[extents.len() - 1].offset);
        }
    }
}

proof fn lemma_cut(extents: Seq<SparseExtentView>, i: int)
    requires
        0 <= i < extents.len(),
        extents_data(extents).len() <= u32::MAX,
    ensures
        0 <= total_length(ranges_of(extents).take(i)) <= total_length(
            ranges_of(extents).take(i + 1),
        ) <= extents_data(extents).len(),
        extents_data(extents).subrange(
            total_length(ranges_of(extents).take(i)) as int,
            total_length(ranges_of(extents).take(i + 1)) as int,
        ) == extents[i].data,
        total_length(ranges_of(extents)) == extents_data(extents).len(),
    decreases extents.len(),
{
    let shorter = extents.drop_last();
    let last = extents.last();
    let ranges = ranges_of(extents);
    assert(ranges.drop_last() =~= ranges_of(shorter));
    lemma_total(shorter);
    if i < shorter.len() {
        lemma_cut(shorter, i);
        assert(ranges.take(i) =~= ranges_of(shorter).take(i));
        assert(ranges.take(i + 1) =~= ranges_of(shorter).take(i + 1));
        let from = total_length(ranges.take(i)) as int;
        let to = total_length(ranges.take(i + 1)) as int;
        assert(extents_data(extents).subrange(from, to) =~= extents_data(shorter).subrange(
            from,
            to,
        ));
        assert(shorter[i] == extents[i]);
    } else {
        assert(ranges.take(i) =~= ranges_of(shorter));
        assert(ranges.take(i + 1) =~= ranges);
        assert(extents_data(extents).subrange(
            extents_data(shorter).len() as int,
            extents_data(extents).len() as int,
        ) =~= last.data);
    }
}

proof fn lemma_total(extents: Seq<SparseExtentView>)
    requires
        extents_data(extents).len() <= u32::MAX,
    ensures
        total_length(ranges_of(extents)) == extents_data(extents).len(),
    decreases extents.len(),
{
    if extents.len() > 0 {
        assert(ranges_of(extents).drop_last() =~= ranges_of(extents.drop_last()));
        lemma_total(extents.drop_last());
    }
}

/// The extents of a sparse read are read as they were written: each piece of data at its own place.
pub proof fn law_sparse_read_reads_back(
    extents: Seq<SparseExtentView>,
    offset: u64,
    length: u64,
    max_bytes: nat,
    max_extents: nat,
)
    requires
        offset + length <= u64::MAX,
        in_order(extents, offset, offset + length),
        extents.len() <= max_extents,
        8 + 16 * extents.len() + extents_data(extents).len() <= max_bytes,
        8 + 16 * extents.len() + extents_data(extents).len() <= u32::MAX,
    ensures
        sparse_decoding(
            le32(extents.len() as u32) + (extents_bytes(extents) + prefixed(extents_data(extents))),
            offset,
            length,
            max_bytes,
            max_extents,
        ) == Ok::<Seq<SparseExtentView>, WireError>(extents),
{
    let none = Seq::<u8>::empty();
    let data = extents_data(extents);
    let tail = prefixed(data);
    assert(tail =~= tail + none);
    lemma_extents(extents, offset, (offset + length) as u64, tail);
    law_u32(extents.len() as u32, extents_bytes(extents) + tail);
    law_bytes(data, none);
    assert forall|i: int| 0 <= i < extents.len() implies #[trigger] cut(ranges_of(extents), data)[i]
        == extents[i] by {
        lemma_cut(extents, i);
    }
    assert(cut(ranges_of(extents), data) =~= extents);
}

/// Checksums are as many as they say, each of its own size, and nothing else comes with them.
pub proof fn law_checksums_are_counted(
    count: u32,
    sums: Seq<u8>,
    checksum_bytes: nat,
    max_bytes: nat,
)
    requires
        4 + sums.len() <= max_bytes,
        count * checksum_bytes <= usize::MAX,
    ensures
        checksum_fault(le32(count) + sums, checksum_bytes, max_bytes) is None <==> sums.len()
            == count * checksum_bytes,
{
    law_u32(count, sums);
}

// ---------------------------------------------------------------------------
// Watches
// ---------------------------------------------------------------------------

/// A notification says how long to wait for watchers and what to tell them.
pub proof fn law_notify_reads_back(timeout_seconds: u32, data: Seq<u8>)
    requires
        data.len() <= u32::MAX,
    ensures
        get_u32(input(notify_bytes(timeout_seconds, data))).0 == 1,
        get_u32(get_u32(input(notify_bytes(timeout_seconds, data))).1).0 == timeout_seconds,
        get_bytes(get_u32(get_u32(input(notify_bytes(timeout_seconds, data))).1).1) == (
            data,
            input(Seq::empty()),
        ),
{
    assert(prefixed(data) =~= prefixed(data) + Seq::<u8>::empty());
    law_bytes(data, Seq::empty());
}

/// An answer to a notification names the notification and the watch, and brings its data.
pub proof fn law_notify_answer_reads_back(notify_id: u64, cookie: u64, data: Seq<u8>)
    requires
        data.len() <= u32::MAX,
    ensures
        get_u64(input(ack_bytes(notify_id, cookie, data))).0 == notify_id,
        get_u64(get_u64(input(ack_bytes(notify_id, cookie, data))).1).0 == cookie,
        get_bytes(get_u64(get_u64(input(ack_bytes(notify_id, cookie, data))).1).1) == (
            data,
            input(Seq::empty()),
        ),
{
    assert(prefixed(data) =~= prefixed(data) + Seq::<u8>::empty());
    law_bytes(data, Seq::empty());
}

/// What a daemon tells a watcher, with the data in the front or beside it.
pub open spec fn notification_front(n: NotificationView, version: u16, inside: bool) -> Seq<u8> {
    seq![1u8] + (seq![n.opcode] + (le64(n.cookie) + (le64(n.version) + (le64(n.notify_id) + (
    prefixed(
        if inside {
            n.data
        } else {
            Seq::empty()
        },
    ) + if version >= 3 {
        le32(unsigned32(n.result)) + le64(n.notifier)
    } else if version == 2 {
        le32(unsigned32(n.result))
    } else {
        Seq::empty()
    })))))
}

/// A notification is read as it was written, wherever its data stands.
#[verifier::rlimit(40)]
pub proof fn law_notification_reads_back(
    m: MessageView,
    n: NotificationView,
    inside: bool,
    max_bytes: nat,
)
    requires
        m.header.message_type == 44,
        1 <= m.header.version <= 3,
        m.header.compat_version <= 1,
        m.middle.len() == 0,
        m.front == notification_front(n, m.header.version, inside),
        m.data == if inside {
            Seq::empty()
        } else {
            n.data
        },
        m.front.len() + m.data.len() <= max_bytes,
        m.front.len() + m.data.len() <= u32::MAX,
        n.cookie != 0,
        n.opcode == 1 || n.opcode == 2 || n.opcode == 3,
        m.header.version < 2 ==> n.result == 0,
        m.header.version < 3 ==> n.notifier == 0,
    ensures
        notification_decoding(m, max_bytes) == Ok::<NotificationView, WireError>(n),
{
    let none = Seq::<u8>::empty();
    let result = le32(unsigned32(n.result));
    let notifier = le64(n.notifier);
    let data = if inside {
        n.data
    } else {
        none
    };
    let tail = if m.header.version >= 3 {
        result + notifier
    } else if m.header.version == 2 {
        result
    } else {
        none
    };
    assert(result =~= result + none);
    assert(notifier =~= notifier + none);
    let t3 = le64(n.notify_id) + (prefixed(data) + tail);
    let t2 = le64(n.version) + t3;
    let t1 = le64(n.cookie) + t2;
    law_u8(1, seq![n.opcode] + t1);
    law_u8(n.opcode, t1);
    law_bytes(data, tail);
    if !inside && n.data.len() == 0 {
        assert(n.data =~= none);
    }
}

pub open spec fn answer_encoder() -> spec_fn(AcknowledgmentView) -> Seq<u8> {
    |a: AcknowledgmentView| le64(a.client) + (le64(a.cookie) + prefixed(a.data))
}

pub open spec fn absence_encoder() -> spec_fn(Timeout) -> Seq<u8> {
    |t: Timeout| le64(t.client) + le64(t.cookie)
}

proof fn lemma_answer_sizes(answers: Seq<AcknowledgmentView>)
    ensures
        20 * answers.len() <= concatenated(answers, answer_encoder()).len(),
        forall|i: int|
            0 <= i < answers.len() ==> (#[trigger] answers[i]).data.len() <= concatenated(
                answers,
                answer_encoder(),
            ).len(),
    decreases answers.len(),
{
    if answers.len() > 0 {
        let shorter = answers.drop_last();
        lemma_answer_sizes(shorter);
        assert(answer_encoder()(answers.last()).len() == 20 + answers.last().data.len());
        assert forall|i: int| 0 <= i < answers.len() implies (#[trigger] answers[i]).data.len()
            <= concatenated(answers, answer_encoder()).len() by {
            if i < shorter.len() {
                assert(shorter[i] == answers[i]);
            }
        }
    }
}

proof fn lemma_absence_sizes(absent: Seq<Timeout>)
    ensures
        16 * absent.len() == concatenated(absent, absence_encoder()).len(),
    decreases absent.len(),
{
    if absent.len() > 0 {
        lemma_absence_sizes(absent.drop_last());
    }
}

/// What came of a notification is read as it was written: the watchers that answered with their
/// data, and those that did not answer in time.
pub proof fn law_notify_result_reads_back(
    answers: Seq<AcknowledgmentView>,
    absent: Seq<Timeout>,
    max_bytes: nat,
    max_entries: nat,
)
    requires
        answers.len() + absent.len() <= max_entries,
        ({
            let size = 8 + concatenated(answers, answer_encoder()).len() + concatenated(
                absent,
                absence_encoder(),
            ).len();
            size <= max_bytes && size <= u32::MAX
        }),
    ensures
        notify_decoding(
            le32(answers.len() as u32) + (concatenated(answers, answer_encoder()) + (le32(
                absent.len() as u32,
            ) + concatenated(absent, absence_encoder()))),
            max_bytes,
            max_entries,
        ) == Ok::<(Seq<AcknowledgmentView>, Seq<Timeout>), WireError>((answers, absent)),
{
    let none = Seq::<u8>::empty();
    let first = concatenated(answers, answer_encoder());
    let second = concatenated(absent, absence_encoder());
    let t1 = le32(absent.len() as u32) + second;
    lemma_answer_sizes(answers);
    lemma_absence_sizes(absent);
    assert(second =~= second + none);
    assert forall|i: int, rest: Seq<u8>| 0 <= i < answers.len() implies #[trigger] (
    acknowledgment_decoder())(input(answer_encoder()(answers[i]) + rest)) == Ok::<
        (AcknowledgmentView, Input),
        WireError,
    >((answers[i], input(rest))) by {
        let a = answers[i];
        let r2 = prefixed(a.data) + rest;
        let r1 = le64(a.cookie) + r2;
        assert(answer_encoder()(a) + rest =~= le64(a.client) + r1);
        law_u64(a.client, r1);
        law_u64(a.cookie, r2);
        law_bytes(a.data, rest);
    }
    assert forall|i: int, rest: Seq<u8>| 0 <= i < absent.len() implies #[trigger] (
    timeout_decoder())(input(absence_encoder()(absent[i]) + rest)) == Ok::<
        (Timeout, Input),
        WireError,
    >((absent[i], input(rest))) by {
        let a = absent[i];
        let r1 = le64(a.cookie) + rest;
        assert(absence_encoder()(a) + rest =~= le64(a.client) + r1);
        law_u64(a.client, r1);
        law_u64(a.cookie, rest);
    }
    law_many(answers, answer_encoder(), acknowledgment_decoder(), t1);
    law_many(absent, absence_encoder(), timeout_decoder(), none);
    law_u32(answers.len() as u32, first + t1);
    law_u32(absent.len() as u32, second);
}

/// A watcher on the wire, at an address.
pub open spec fn watcher_bytes(w: WatcherView, address: AddressView) -> Seq<u8> {
    versioned(
        2,
        1,
        seq![8u8] + (le64(w.client) + (le64(w.cookie) + (le32(w.timeout_seconds) + address_bytes(
            address,
        )))),
    )
}

/// A watcher is read as it was written: who watches, under which cookie, for how long and from where.
#[verifier::rlimit(40)]
pub proof fn law_watcher_reads_back(w: WatcherView, address: AddressView, tail: Seq<u8>)
    requires
        w.client <= i64::MAX,
        w.cookie != 0,
        w.address == address_text(address),
        watcher_bytes(w, address).len() <= u32::MAX,
    ensures
        watcher_decoder()(input(watcher_bytes(w, address) + tail)) == Ok::<
            (WatcherView, Input),
            WireError,
        >((w, input(tail))),
{
    let none = Seq::<u8>::empty();
    let last = address_bytes(address);
    assert(last =~= last + none);
    let t3 = le32(w.timeout_seconds) + last;
    let t2 = le64(w.cookie) + t3;
    let t1 = le64(w.client) + t2;
    let payload = seq![8u8] + t1;
    law_versioned(2, 1, payload, 2, tail);
    law_u8(8, t1);
    assert(unsigned64(w.client as i64) == w.client);
    crate::wire::law_i64(w.client as i64, t2);
    law_u64(w.cookie, t3);
    law_u32(w.timeout_seconds, last);
    law_address_reads_back(address, none);
    reveal(watcher_fields);
    assert(watcher_fields(2, input(payload)) == Ok::<WatcherView, WireError>(w));
}

/// Watchers with their addresses on the wire.
pub open spec fn watchers_bytes(watchers: Seq<WatcherView>, addresses: Seq<AddressView>) -> Seq<u8>
    decreases watchers.len(),
{
    if watchers.len() == 0 {
        Seq::empty()
    } else {
        watchers_bytes(watchers.drop_last(), addresses) + watcher_bytes(
            watchers.last(),
            addresses[watchers.len() - 1],
        )
    }
}

proof fn lemma_watchers(watchers: Seq<WatcherView>, addresses: Seq<AddressView>, tail: Seq<u8>)
    requires
        addresses.len() >= watchers.len(),
        forall|i: int|
            0 <= i < watchers.len() ==> (#[trigger] watchers[i]).client <= i64::MAX
                && watchers[i].cookie != 0 && watchers[i].address == address_text(addresses[i]),
        watchers_bytes(watchers, addresses).len() <= u32::MAX,
    ensures
        get_many(
            input(watchers_bytes(watchers, addresses) + tail),
            watchers.len(),
            watcher_decoder(),
        ) == Ok::<(Seq<WatcherView>, Input), WireError>((watchers, input(tail))),
        17 * watchers.len() <= watchers_bytes(watchers, addresses).len(),
    decreases watchers.len(),
{
    let all = watchers_bytes(watchers, addresses);
    if watchers.len() == 0 {
        assert(all + tail =~= tail);
        assert(watchers =~= Seq::empty());
    } else {
        let shorter = watchers.drop_last();
        let last = watcher_bytes(watchers.last(), addresses[watchers.len() - 1]);
        assert(all == watchers_bytes(shorter, addresses) + last);
        assert forall|i: int| 0 <= i < shorter.len() implies (#[trigger] shorter[i]).client
            <= i64::MAX && shorter[i].cookie != 0 && shorter[i].address == address_text(
            addresses[i],
        ) by {
            assert(shorter[i] == watchers[i]);
        }
        lemma_watchers(shorter, addresses, last + tail);
        assert(all + tail =~= watchers_bytes(shorter, addresses) + (last + tail));
        assert(watchers.last() == watchers[watchers.len() - 1]);
        law_watcher_reads_back(watchers.last(), addresses[watchers.len() - 1], tail);
        assert(shorter.push(watchers.last()) =~= watchers);
    }
}

/// The watchers of an object are read as they were written.
pub proof fn law_watchers_read_back(
    watchers: Seq<WatcherView>,
    addresses: Seq<AddressView>,
    max_bytes: nat,
    max_watchers: nat,
)
    requires
        addresses.len() == watchers.len(),
        watchers.len() <= max_watchers,
        forall|i: int|
            0 <= i < watchers.len() ==> (#[trigger] watchers[i]).client <= i64::MAX
                && watchers[i].cookie != 0 && watchers[i].address == address_text(addresses[i]),
        10 + watchers_bytes(watchers, addresses).len() <= max_bytes,
        10 + watchers_bytes(watchers, addresses).len() <= u32::MAX,
    ensures
        watchers_decoding(
            versioned(1, 1, le32(watchers.len() as u32) + watchers_bytes(watchers, addresses)),
            max_bytes,
            max_watchers,
        ) == Ok::<Seq<WatcherView>, WireError>(watchers),
{
    let none = Seq::<u8>::empty();
    let all = watchers_bytes(watchers, addresses);
    let payload = le32(watchers.len() as u32) + all;
    let whole = versioned(1, 1, payload);
    assert(whole =~= whole + none);
    assert(all =~= all + none);
    lemma_watchers(watchers, addresses, none);
    law_versioned(1, 1, payload, 1, none);
    law_u32(watchers.len() as u32, all);
}

// ---------------------------------------------------------------------------
// Locks
// ---------------------------------------------------------------------------

/// A request for a lock names it, its type, the holder's cookie, the tag and the description, in
/// this order, then says for how long and whether it may be renewed.
#[verifier::rlimit(40)]
pub proof fn law_lock_request_reads_back(r: Request<'_>)
    requires
        lock_payload(r).len() <= u32::MAX,
        r.duration.seconds <= u32::MAX,
    ensures
        ({
            let (version, payload, rest) = get_versioned(
                input(versioned(1, 1, lock_payload(r))),
                1,
            );
            let (name, d1) = get_text(payload);
            let (kind, d2) = get_u8(d1);
            let (cookie, d3) = get_text(d2);
            let (tag, d4) = get_text(d3);
            let (description, d5) = get_text(d4);
            let (seconds, d6) = get_u32(d5);
            let (nanoseconds, d7) = get_u32(d6);
            let (flags, d8) = get_u8(d7);
            &&& version == 1 && rest == input(Seq::empty())
            &&& name == r.name@
            &&& kind == r.lock_type
            &&& cookie == r.cookie@
            &&& tag == r.tag@
            &&& description == r.description@
            &&& seconds == r.duration.seconds
            &&& nanoseconds == r.duration.nanoseconds
            &&& r.renew ==> flags == 1
            &&& !r.renew ==> flags == 0
            &&& d8 == input(Seq::empty())
        }),
{
    let none = Seq::<u8>::empty();
    let payload = lock_payload(r);
    let whole = versioned(1, 1, payload);
    assert(whole =~= whole + none);
    law_versioned(1, 1, payload, 1, none);
    let flag: u8 = if r.renew {
        super::lock::LOCK_MAY_RENEW
    } else {
        0
    };
    let t7 = seq![flag];
    assert(t7 =~= t7 + none);
    let t6 = le32(r.duration.nanoseconds) + t7;
    let t5 = le32(r.duration.seconds as u32) + t6;
    let t4 = text(r.description@) + t5;
    let t3 = text(r.tag@) + t4;
    let t2 = text(r.cookie@) + t3;
    let t1 = seq![r.lock_type] + t2;
    assert(payload =~= text(r.name@) + t1);
    assert(text(r.name@).len() == 4 + encode_utf8(r.name@).len());
    assert(text(r.cookie@).len() == 4 + encode_utf8(r.cookie@).len());
    assert(text(r.tag@).len() == 4 + encode_utf8(r.tag@).len());
    assert(text(r.description@).len() == 4 + encode_utf8(r.description@).len());
    law_text(r.name@, t1);
    law_u8(r.lock_type, t2);
    law_text(r.cookie@, t3);
    law_text(r.tag@, t4);
    law_text(r.description@, t5);
    law_u8(flag, none);
}

/// A lock is given up by its name and the holder's cookie.
pub proof fn law_unlock_reads_back(name: Seq<char>, cookie: Seq<char>)
    requires
        encode_utf8(name).len() <= u32::MAX,
        encode_utf8(cookie).len() <= u32::MAX,
    ensures
        get_text(input(unlock_payload(name, cookie))) == (name, input(text(cookie))),
        get_text(input(text(cookie))) == (cookie, input(Seq::empty())),
{
    assert(text(cookie) =~= text(cookie) + Seq::<u8>::empty());
    law_text(name, text(cookie));
    law_text(cookie, Seq::empty());
}

/// A lock is taken from the client that is named, under its cookie.
pub proof fn law_break_reads_back(name: Seq<char>, client: u64, cookie: Seq<char>)
    requires
        encode_utf8(name).len() <= u32::MAX,
        encode_utf8(cookie).len() <= u32::MAX,
    ensures
        ({
            let (name_read, d1) = get_text(input(break_payload(name, client, cookie)));
            let (kind, d2) = get_u8(d1);
            let (client_read, d3) = get_u64(d2);
            &&& name_read == name
            &&& kind == 8
            &&& client_read == client
            &&& get_text(d3) == (cookie, input(Seq::empty()))
        }),
{
    let none = Seq::<u8>::empty();
    let last = text(cookie);
    assert(last =~= last + none);
    law_text(name, seq![8u8] + (le64(client) + last));
    law_u8(8, le64(client) + last);
    law_text(cookie, none);
}

/// A holder of a lock on the wire, at an address.
pub open spec fn holder_bytes(h: HolderView, address: AddressView) -> Seq<u8> {
    versioned(1, 1, seq![8u8] + (le64(h.client) + text(h.cookie))) + versioned(
        1,
        1,
        le32(h.expiration.seconds) + (le32(h.expiration.nanoseconds) + (address_bytes(address)
            + text(h.description))),
    )
}

/// A holder of a lock is read as it was written: who holds it under which cookie, until when, from
/// where, and what it said.
#[verifier::rlimit(40)]
pub proof fn law_holder_reads_back(h: HolderView, address: AddressView, tail: Seq<u8>)
    requires
        h.client <= i64::MAX,
        h.expiration.nanoseconds < 1_000_000_000,
        h.address == address_text(address),
        holder_bytes(h, address).len() <= u32::MAX,
    ensures
        get_holder(input(holder_bytes(h, address) + tail)) == Ok::<(HolderView, Input), WireError>(
            (h, input(tail)),
        ),
{
    let none = Seq::<u8>::empty();
    let cookie = text(h.cookie);
    let description = text(h.description);
    assert(cookie =~= cookie + none);
    assert(description =~= description + none);
    let who = seq![8u8] + (le64(h.client) + cookie);
    let t1 = address_bytes(address) + description;
    let what = le32(h.expiration.seconds) + (le32(h.expiration.nanoseconds) + t1);
    let second = versioned(1, 1, what) + tail;
    assert(holder_bytes(h, address) + tail =~= versioned(1, 1, who) + second);
    assert(cookie.len() == 4 + encode_utf8(h.cookie).len());
    assert(description.len() == 4 + encode_utf8(h.description).len());
    law_versioned(1, 1, who, 1, second);
    law_versioned(1, 1, what, 1, tail);
    law_u8(8, le64(h.client) + cookie);
    assert(unsigned64(h.client as i64) == h.client);
    crate::wire::law_i64(h.client as i64, cookie);
    lemma_strict(h.cookie, none);
    law_address_reads_back(address, description);
    lemma_strict(h.description, none);
    reveal(holder_identity);
    reveal(holder_info);
    reveal(get_holder);
    assert(holder_identity(input(who)) == Ok::<(u64, Seq<char>), WireError>((h.client, h.cookie)));
    assert(holder_info(input(what)) == Ok::<(Moment, Seq<char>, Seq<char>), WireError>(
        (h.expiration, h.address, h.description),
    ));
}

proof fn lemma_strict(t: Seq<char>, tail: Seq<u8>)
    requires
        encode_utf8(t).len() <= u32::MAX,
    ensures
        get_strict(input(text(t) + tail)) == Ok::<(Seq<char>, Input), WireError>((t, input(tail))),
{
    law_bytes(encode_utf8(t), tail);
    vstd::utf8::encode_utf8_valid_utf8(t);
    vstd::utf8::encode_utf8_decode_utf8(t);
}

/// The holders of a lock on the wire.
pub open spec fn holders_bytes(holders: Seq<HolderView>, addresses: Seq<AddressView>) -> Seq<u8>
    decreases holders.len(),
{
    if holders.len() == 0 {
        Seq::empty()
    } else {
        holders_bytes(holders.drop_last(), addresses) + holder_bytes(
            holders.last(),
            addresses[holders.len() - 1],
        )
    }
}

proof fn lemma_holders(holders: Seq<HolderView>, addresses: Seq<AddressView>, tail: Seq<u8>)
    requires
        addresses.len() >= holders.len(),
        forall|i: int|
            0 <= i < holders.len() ==> (#[trigger] holders[i]).client <= i64::MAX
                && holders[i].expiration.nanoseconds < 1_000_000_000 && holders[i].address
                == address_text(addresses[i]),
        holders_bytes(holders, addresses).len() <= u32::MAX,
    ensures
        get_many(
            input(holders_bytes(holders, addresses) + tail),
            holders.len(),
            holder_decoder(),
        ) == Ok::<(Seq<HolderView>, Input), WireError>((holders, input(tail))),
        13 * holders.len() <= holders_bytes(holders, addresses).len(),
    decreases holders.len(),
{
    let all = holders_bytes(holders, addresses);
    if holders.len() == 0 {
        assert(all + tail =~= tail);
        assert(holders =~= Seq::empty());
    } else {
        let shorter = holders.drop_last();
        let last = holder_bytes(holders.last(), addresses[holders.len() - 1]);
        assert(all == holders_bytes(shorter, addresses) + last);
        assert forall|i: int| 0 <= i < shorter.len() implies (#[trigger] shorter[i]).client
            <= i64::MAX && shorter[i].expiration.nanoseconds < 1_000_000_000
            && shorter[i].address == address_text(addresses[i]) by {
            assert(shorter[i] == holders[i]);
        }
        lemma_holders(shorter, addresses, last + tail);
        assert(all + tail =~= holders_bytes(shorter, addresses) + (last + tail));
        assert(holders.last() == holders[holders.len() - 1]);
        law_holder_reads_back(holders.last(), addresses[holders.len() - 1], tail);
        assert(shorter.push(holders.last()) =~= holders);
    }
}

/// What is known of a lock is read as it was written: its holders, its type and its tag.
#[verifier::rlimit(40)]
pub proof fn law_lock_info_reads_back(
    info: InfoView,
    addresses: Seq<AddressView>,
    max_bytes: nat,
    max_holders: nat,
)
    requires
        addresses.len() == info.holders.len(),
        info.holders.len() <= max_holders,
        forall|i: int|
            0 <= i < info.holders.len() ==> (#[trigger] info.holders[i]).client <= i64::MAX
                && info.holders[i].expiration.nanoseconds < 1_000_000_000
                && info.holders[i].address == address_text(addresses[i]),
        info.lock_type == 1 || info.lock_type == 2 || (info.lock_type == 0 && info.holders.len()
            == 0),
        15 + holders_bytes(info.holders, addresses).len() + encode_utf8(info.tag).len()
            <= max_bytes,
        15 + holders_bytes(info.holders, addresses).len() + encode_utf8(info.tag).len() <= u32::MAX,
    ensures
        info_decoding(
            versioned(
                1,
                1,
                le32(info.holders.len() as u32) + (holders_bytes(info.holders, addresses) + (seq![
                    info.lock_type,
                ] + text(info.tag))),
            ),
            max_bytes,
            max_holders,
        ) == Ok::<InfoView, WireError>(info),
{
    let none = Seq::<u8>::empty();
    let all = holders_bytes(info.holders, addresses);
    let tag = text(info.tag);
    assert(tag =~= tag + none);
    let t1 = seq![info.lock_type] + tag;
    let payload = le32(info.holders.len() as u32) + (all + t1);
    let whole = versioned(1, 1, payload);
    assert(whole =~= whole + none);
    lemma_holders(info.holders, addresses, t1);
    law_versioned(1, 1, payload, 1, none);
    law_u32(info.holders.len() as u32, all + t1);
    law_u8(info.lock_type, tag);
    lemma_strict(info.tag, none);
}

// ---------------------------------------------------------------------------
// Listings
// ---------------------------------------------------------------------------

/// A listing starts at its cursor, brings as many entries as are asked for, under the epoch that is
/// given. One of no entries is refused.
pub proof fn law_listing_asks_for_its_page(
    cursor: HObjectView,
    count: u64,
    start_epoch: u32,
    max_bytes: nat,
)
    ensures
        listing(cursor, count, start_epoch, max_bytes) matches Ok(op) ==> {
            &&& count > 0
            &&& op is PGNList
            &&& op->PGNList_count == count
            &&& op->PGNList_start_epoch == start_epoch
            &&& op->PGNList_cursor_hash == cursor.hash
            &&& super::backoff::get_hobject(input(op->PGNList_cursor)) == Ok::<
                (HObjectView, Input),
                WireError,
            >((cursor, input(Seq::empty())))
        },
        count == 0 ==> listing(cursor, count, start_epoch, max_bytes) == Err::<
            OperationView,
            WireError,
        >(WireError::Malformed),
        count > 0 && hobject_bytes(cursor).len() <= max_bytes && hobject_bytes(cursor).len()
            <= u32::MAX ==> listing(cursor, count, start_epoch, max_bytes) is Ok,
{
    if listing(cursor, count, start_epoch, max_bytes) is Ok {
        let none = Seq::<u8>::empty();
        assert(hobject_bytes(cursor) =~= hobject_bytes(cursor) + none);
        law_hobject_reads_back(cursor, none);
    }
}

pub open spec fn list_entry_encoder() -> spec_fn(ListEntryView) -> Seq<u8> {
    |e: ListEntryView| prefixed(e.namespace) + (prefixed(e.object) + prefixed(e.locator))
}

proof fn lemma_entry_sizes(entries: Seq<ListEntryView>)
    ensures
        12 * entries.len() <= concatenated(entries, list_entry_encoder()).len(),
        forall|i: int|
            0 <= i < entries.len() ==> (#[trigger] entries[i]).namespace.len()
                + entries[i].object.len() + entries[i].locator.len() <= concatenated(
                entries,
                list_entry_encoder(),
            ).len(),
    decreases entries.len(),
{
    if entries.len() > 0 {
        let shorter = entries.drop_last();
        let last = entries.last();
        lemma_entry_sizes(shorter);
        assert(list_entry_encoder()(last).len() == 12 + last.namespace.len() + last.object.len()
            + last.locator.len());
        assert forall|i: int| 0 <= i < entries.len() implies (#[trigger] entries[i]).namespace.len()
            + entries[i].object.len() + entries[i].locator.len() <= concatenated(
            entries,
            list_entry_encoder(),
        ).len() by {
            if i < shorter.len() {
                assert(shorter[i] == entries[i]);
            }
        }
    }
}

/// A page of a listing is read as it was written: where to go on, and of each entry its namespace,
/// its name and its locator.
#[verifier::rlimit(40)]
pub proof fn law_list_page_reads_back(page: ListPageView, max_bytes: nat, max_entries: nat)
    requires
        page.entries.len() <= max_entries,
        ({
            let size = 10 + hobject_bytes(page.next).len() + concatenated(
                page.entries,
                list_entry_encoder(),
            ).len();
            size <= max_bytes && size <= u32::MAX
        }),
    ensures
        listing_decoding(
            versioned(
                1,
                1,
                hobject_bytes(page.next) + (le32(page.entries.len() as u32) + concatenated(
                    page.entries,
                    list_entry_encoder(),
                )),
            ),
            max_bytes,
            max_entries,
        ) == Ok::<ListPageView, WireError>(page),
{
    let none = Seq::<u8>::empty();
    let all = concatenated(page.entries, list_entry_encoder());
    let t1 = le32(page.entries.len() as u32) + all;
    let payload = hobject_bytes(page.next) + t1;
    let whole = versioned(1, 1, payload);
    assert(whole =~= whole + none);
    assert(all =~= all + none);
    lemma_entry_sizes(page.entries);
    law_versioned(1, 1, payload, 1, none);
    law_hobject_reads_back(page.next, t1);
    law_u32(page.entries.len() as u32, all);
    assert forall|i: int, rest: Seq<u8>| 0 <= i < page.entries.len() implies #[trigger] (
    list_entry_decoder())(input(list_entry_encoder()(page.entries[i]) + rest)) == Ok::<
        (ListEntryView, Input),
        WireError,
    >((page.entries[i], input(rest))) by {
        let e = page.entries[i];
        let r2 = prefixed(e.locator) + rest;
        let r1 = prefixed(e.object) + r2;
        assert(list_entry_encoder()(e) + rest =~= prefixed(e.namespace) + r1);
        law_bytes(e.namespace, r1);
        law_bytes(e.object, r2);
        law_bytes(e.locator, rest);
    }
    law_many(page.entries, list_entry_encoder(), list_entry_decoder(), none);
}

// ---------------------------------------------------------------------------
// Commands
// ---------------------------------------------------------------------------

pub open spec fn argument_decoder() -> spec_fn(Input) -> Result<(Seq<char>, Input), WireError> {
    |d: Input| Ok(get_text(d))
}

proof fn lemma_arguments(arguments: Seq<String>, tail: Seq<u8>)
    requires
        concatenated(arguments, text_encoder()).len() <= u32::MAX,
    ensures
        get_many(
            input(concatenated(arguments, text_encoder()) + tail),
            arguments.len(),
            argument_decoder(),
        ) == Ok::<(Seq<Seq<char>>, Input), WireError>(
            (Seq::new(arguments.len(), |i: int| arguments[i]@), input(tail)),
        ),
        arguments.len() <= concatenated(arguments, text_encoder()).len(),
    decreases arguments.len(),
{
    let all = concatenated(arguments, text_encoder());
    let read = Seq::new(arguments.len(), |i: int| arguments[i]@);
    if arguments.len() == 0 {
        assert(all + tail =~= tail);
        assert(read =~= Seq::empty());
    } else {
        let shorter = arguments.drop_last();
        let last = text(arguments.last()@);
        assert(last.len() == 4 + encode_utf8(arguments.last()@).len());
        assert(all == concatenated(shorter, text_encoder()) + last);
        lemma_arguments(shorter, last + tail);
        assert(all + tail =~= concatenated(shorter, text_encoder()) + (last + tail));
        law_text(arguments.last()@, tail);
        assert(read =~= Seq::new(shorter.len(), |i: int| shorter[i]@).push(arguments.last()@));
    }
}

/// A command names the cluster and brings its arguments in order, and its input as the data of the
/// message. It is sent if there is anything to it and it is not too long.
pub proof fn law_command_reads_back(r: CommandRequest<'_>, max_bytes: u32)
    ensures
        command_encoding(r, max_bytes) is Ok <==> max_bytes > 0 && r.command@.len() > 0
            && command_front(r).len() + r.input@.len() <= max_bytes,
        command_encoding(r, max_bytes) matches Err(error) ==> error == CommandError::Wire(
            WireError::LimitExceeded,
        ),
        command_encoding(r, max_bytes) matches Ok(m) ==> {
            let (fsid, d1) = get_raw(input(m.front), 16);
            let (count, d2) = get_u32(d1);
            let read = get_many(d2, r.command@.len(), argument_decoder());
            &&& m.header.message_type == 97
            &&& m.header.version == 1
            &&& m.header.compat_version == 0
            &&& m.header.transaction_id == r.transaction_id
            &&& m.lengths.front == m.front.len()
            &&& m.lengths.middle == 0 && m.middle.len() == 0
            &&& m.lengths.data == m.data.len()
            &&& m.data == r.input@
            &&& fsid == r.fsid@
            &&& count == r.command@.len()
            &&& read is Ok
            &&& read->Ok_0.1 == input(Seq::empty())
            &&& read->Ok_0.0.len() == r.command@.len()
            &&& forall|i: int|
                0 <= i < r.command@.len() ==> #[trigger] read->Ok_0.0[i] == r.command@[i]@
        },
{
    if let Ok(m) = command_encoding(r, max_bytes) {
        let none = Seq::<u8>::empty();
        let all = concatenated(r.command@, text_encoder());
        assert(all =~= all + none);
        lemma_arguments(r.command@, none);
        law_raw(r.fsid@, le32(r.command@.len() as u32) + all);
        law_u32(r.command@.len() as u32, all);
    }
}

} // verus!
