//! What is kept between requests: the order of objects and what is held back, the changes under way,
//! the sessions with daemons, and what a scrub found.

use super::backoff::{
    backoff_decoding, backoff_encoding, backoff_front, before, covers, get_hobject, hash_order,
    hobject_bytes, law_hobject_reads_back, law_objects_are_ordered, reversed, spg_payload,
    BackoffView, HObjectView,
};
use super::client::{Error, UnknownCause};
use super::incoming::{receiving, submitting, IncomingView, SessionView, Submission};
use super::messages::Limits;
use super::mutations::{accounted, admission, completion, flushing, unknown, Flush, MutationView};
use super::sessions::{choosing, daemon_config, opening, retiring, unfinished, Choice, PoolView};
use super::watch::notification_decoding;
use crate::maps::PG;
use crate::msgr::frame::Limits as FrameLimits;
use crate::msgr::message::MessageView;
use crate::msgr::session_model::ReconnectPolicy;
use crate::protocol::address::{endpoint_of, AddressView, Endpoint4};
use crate::wire::{
    bytes_less, get_bool, get_bytes, get_i32, get_i64, get_i8, get_u32, get_u64, get_u8,
    get_versioned, input, law_versioned, le32, le64, lemma_bytes_less_irreflexive, unsigned64,
    unsigned8, Input, WireError,
};
use vstd::prelude::*;

verus! {

broadcast use {crate::wire::group_integers, crate::wire::group_reads};

// ---------------------------------------------------------------------------
// The order of objects
// ---------------------------------------------------------------------------

/// The bit at `i`, counted from the least significant.
pub open spec fn bit(h: u32, i: u32) -> u32 {
    (h >> i) & 1
}

proof fn lemma_reversed(h: u32, count: nat, seen: u32, i: u32)
    requires
        count <= 32,
        i < 32,
    ensures
        i < count ==> bit(reversed(h, count, seen), i) == bit(h, (count - 1 - i) as u32),
        i >= count ==> bit(reversed(h, count, seen), i) == bit(seen, (i - count) as u32),
    decreases count,
{
    if count > 0 {
        let next = (seen << 1) | (h & 1);
        lemma_reversed(h >> 1, (count - 1) as nat, next, i);
        if i < count - 1 {
            let k = (count - 2 - i) as u32;
            let j = (k + 1) as u32;
            assert(((h >> 1) >> k) & 1 == (h >> j) & 1) by (bit_vector)
                requires
                    k < 31,
                    j == k + 1,
            ;
        } else if i == count - 1 {
            assert(((((seen << 1) | (h & 1)) >> 0u32) & 1) == ((h >> 0u32) & 1)) by (bit_vector);
        } else {
            let k = (i - count + 1) as u32;
            let j = (k - 1) as u32;
            assert((((seen << 1) | (h & 1)) >> k) & 1 == (seen >> j) & 1) by (bit_vector)
                requires
                    0 < k < 32,
                    k == j + 1,
            ;
        }
    }
}

/// Objects are kept by their hashes read backwards: the last bit of a hash is the first that counts.
pub proof fn law_hashes_are_read_backwards(h: u32, i: u32)
    requires
        i < 32,
    ensures
        bit(hash_order(h), i) == bit(h, (31 - i) as u32),
{
    lemma_reversed(h, 32, 0, i);
}

/// What decides the order of two objects, the most important first: whether one is the end of all,
/// the pool, the hash, the namespace, the key or else the name, the name, and the snapshot. Objects
/// that agree on all of these are not ordered.
pub proof fn law_first_difference_decides(a: HObjectView, b: HObjectView)
    ensures
        a.max ==> !before(a, b),
        !a.max && b.max ==> before(a, b),
        !a.max && !b.max && a.pool < b.pool ==> before(a, b) && !before(b, a),
        !a.max && !b.max && a.pool == b.pool && hash_order(a.hash) < hash_order(b.hash) ==> before(
            a,
            b,
        ) && !before(b, a),
        !a.max && !b.max && a.pool == b.pool && a.hash == b.hash && bytes_less(
            a.namespace,
            b.namespace,
        ) ==> before(a, b) && !before(b, a),
        !a.max && !b.max && a.pool == b.pool && a.hash == b.hash && a.namespace == b.namespace
            && a.key.len() > 0 && b.key.len() > 0 && bytes_less(a.key, b.key) ==> before(a, b)
            && !before(b, a),
        !a.max && !b.max && a.pool == b.pool && a.hash == b.hash && a.namespace == b.namespace
            && a.key.len() == 0 && b.key.len() == 0 && bytes_less(a.object, b.object) ==> before(
            a,
            b,
        ) && !before(b, a),
        !a.max && !b.max && a.pool == b.pool && a.hash == b.hash && a.namespace == b.namespace
            && a.key.len() > 0 && a.key == b.key && bytes_less(a.object, b.object) ==> before(a, b)
            && !before(b, a),
        !a.max && !b.max && a.pool == b.pool && a.hash == b.hash && a.namespace == b.namespace
            && a.key == b.key && a.object == b.object && a.snapshot < b.snapshot ==> before(a, b)
            && !before(b, a),
        a.max && b.max ==> !before(a, b) && !before(b, a),
        a.max == b.max && a.pool == b.pool && a.hash == b.hash && a.namespace == b.namespace
            && a.key == b.key && a.object == b.object && a.snapshot == b.snapshot ==> !before(a, b),
{
    law_objects_are_ordered(a, b, a);
    lemma_bytes_less_irreflexive(a.namespace);
    lemma_bytes_less_irreflexive(b.namespace);
    lemma_bytes_less_irreflexive(a.key);
    lemma_bytes_less_irreflexive(a.object);
}

/// A range holds what is between its ends: its beginning, what comes after it and before its end,
/// and not its end. A range that ends where it begins holds its beginning.
pub proof fn law_ranges_are_half_open(b: BackoffView, x: HObjectView)
    ensures
        covers(b, b.begin) || before(b.end, b.begin),
        before(b.begin, b.end) ==> covers(b, b.begin) && !covers(b, b.end),
        before(b.begin, b.end) ==> (covers(b, x) <==> !before(x, b.begin) && before(x, b.end)),
        b.begin == b.end ==> (covers(b, x) <==> !before(x, b.begin) && !before(b.begin, x)),
        before(b.begin, x) && before(x, b.end) ==> covers(b, x),
        before(x, b.begin) ==> !covers(b, x),
        before(b.begin, b.end) && before(b.end, x) ==> !covers(b, x),
{
    law_objects_are_ordered(b.begin, x, b.end);
    law_objects_are_ordered(b.begin, b.end, b.begin);
    law_objects_are_ordered(b.end, b.begin, b.end);
    law_objects_are_ordered(x, b.begin, x);
    law_objects_are_ordered(b.end, x, b.end);
    law_objects_are_ordered(x, b.end, x);
    law_objects_are_ordered(b.begin, x, b.begin);
}

/// An object on the wire has its key, its name, its snapshot, its hash, whether it is the end of
/// all, its namespace and its pool, in this order.
#[verifier::rlimit(40)]
pub proof fn law_object_layout(h: HObjectView, tail: Seq<u8>)
    requires
        hobject_bytes(h).len() <= u32::MAX,
    ensures
        ({
            let (version, payload, rest) = get_versioned(input(hobject_bytes(h) + tail), 3);
            let (key, d1) = get_bytes(payload);
            let (object, d2) = get_bytes(d1);
            let (snapshot, d3) = get_u64(d2);
            let (hash, d4) = get_u32(d3);
            let (max, d5) = get_bool(d4);
            let (namespace, d6) = get_bytes(d5);
            &&& version == 4
            &&& rest == input(tail)
            &&& key == h.key
            &&& object == h.object
            &&& snapshot == h.snapshot
            &&& hash == h.hash
            &&& max == h.max
            &&& namespace == h.namespace
            &&& get_i64(d6) == (h.pool, input(Seq::empty()))
        }),
{
    let none = Seq::<u8>::empty();
    let pool = le64(unsigned64(h.pool));
    assert(pool =~= pool + none);
    let payload = super::backoff::hobject_payload(h);
    law_versioned(4, 3, payload, 3, tail);
}

/// A backoff on the wire names the placement group and the shard, the epoch, the operation, its
/// number, and where its range begins and ends. It goes in a message of its own type.
#[verifier::rlimit(60)]
pub proof fn law_backoff_layout(b: BackoffView, operation: u8, limits: Limits)
    ensures
        backoff_encoding(b, operation, limits) is Ok <==> backoff_front(b, operation).len()
            <= limits.max_bytes,
        backoff_encoding(b, operation, limits) matches Ok(m) ==> {
            let (version, group, d1) = get_versioned(input(m.front), 1);
            let (epoch, d2) = get_u32(d1);
            let (kind, d3) = get_u8(d2);
            let (id, d4) = get_u64(d3);
            let begin = get_hobject(d4);
            let end = get_hobject(begin->Ok_0.1);
            let (marker, g1) = get_u8(group);
            let (pool, g2) = get_u64(g1);
            let (seed, g3) = get_u32(g2);
            let (preferred, g4) = get_i32(g3);
            &&& m.header.message_type == 61
            &&& m.header.version == 1
            &&& m.header.compat_version == 1
            &&& m.middle.len() == 0 && m.data.len() == 0
            &&& version == 1
            &&& marker == 1
            &&& pool == b.pg.pool
            &&& seed == b.pg.seed
            &&& preferred == b.pg.preferred
            &&& get_i8(g4) == (b.shard, input(Seq::empty()))
            &&& epoch == b.map_epoch
            &&& kind == operation
            &&& id == b.id
            &&& begin is Ok && begin->Ok_0.0 == b.begin
            &&& end == Ok::<(HObjectView, Input), WireError>((b.end, input(Seq::empty())))
        },
{
    if let Ok(m) = backoff_encoding(b, operation, limits) {
        let none = Seq::<u8>::empty();
        let end = hobject_bytes(b.end);
        assert(end =~= end + none);
        let t4 = hobject_bytes(b.begin) + end;
        let t3 = le64(b.id) + t4;
        let t2 = seq![operation] + t3;
        let t1 = le32(b.map_epoch) + t2;
        let group = spg_payload(b.pg, b.shard);
        let last = seq![unsigned8(b.shard)];
        assert(last =~= last + none);
        law_versioned(1, 1, group, 1, t1);
        crate::wire::law_u8(operation, t3);
        law_hobject_reads_back(b.begin, end);
        law_hobject_reads_back(b.end, none);
    }
}

// ---------------------------------------------------------------------------
// What daemons send unasked
// ---------------------------------------------------------------------------

/// What a daemon sends unasked: a map means that the client's is stale; a notification is handed on;
/// a block is kept under its number and acknowledged as one; its end lifts it; and anything else is
/// passed over.
pub proof fn law_unasked_messages_are_dealt_with(s: SessionView, m: MessageView, limits: Limits)
    ensures
        ({
            let (after, what) = receiving(s, m, limits);
            let notification = notification_decoding(m, limits.max_bytes as nat);
            let backoff = backoff_decoding(m, limits);
            &&& m.header.message_type == 41 ==> what == (IncomingView::Failed {
                announce: s.failure is None,
            }) && after.backoffs == s.backoffs && (s.failure is None ==> after.failure == Some(
                Error::StaleMap,
            ))
            &&& m.header.message_type == 44 && notification is Ok ==> after == s && what
                == IncomingView::Delivered(notification->Ok_0)
            &&& m.header.message_type == 44 && notification is Err && s.failure is None
                ==> after.failure == Some(Error::MalformedReply)
            &&& m.header.message_type == 61 && backoff is Ok && backoff->Ok_0.operation == 1 ==> {
                let b = backoff->Ok_0;
                &&& after.backoffs.contains_key(b.id) && after.backoffs[b.id] == b
                &&& forall|id: u64|
                    id != b.id ==> (#[trigger] after.backoffs.contains_key(id)
                        == s.backoffs.contains_key(id)) && (s.backoffs.contains_key(id)
                        ==> after.backoffs[id] == s.backoffs[id])
                &&& backoff_encoding(b, 2, limits) matches Ok(ack) ==> what
                    == IncomingView::Acknowledge(ack) && after.failure == s.failure
            }
            &&& m.header.message_type == 61 && backoff is Ok && backoff->Ok_0.operation == 3 ==> {
                let b = backoff->Ok_0;
                &&& what == IncomingView::Unblocked
                &&& after.failure == s.failure
                &&& !after.backoffs.contains_key(b.id)
                &&& forall|id: u64|
                    id != b.id ==> (#[trigger] after.backoffs.contains_key(id)
                        == s.backoffs.contains_key(id)) && (s.backoffs.contains_key(id)
                        ==> after.backoffs[id] == s.backoffs[id])
            }
            &&& m.header.message_type != 41 && m.header.message_type != 44
                && m.header.message_type != 61 ==> after == s && what == IncomingView::Ignored
            &&& s.failure is Some ==> after.failure == s.failure
        }),
{
    if m.header.message_type == 61 {
        lemma_backoff_kinds(m, limits);
    }
}

proof fn lemma_backoff_kinds(m: MessageView, limits: Limits)
    ensures
        backoff_decoding(m, limits) matches Ok(b) ==> b.operation == 1 || b.operation == 3,
{
    reveal(super::backoff::backoff_fields);
}

/// A request is refused once the session failed, as it failed; it waits while a block of its group
/// covers its object; and otherwise it is sent.
pub proof fn law_held_back_requests_wait(s: SessionView, pg: PG, object: HObjectView, id: u64)
    ensures
        s.failure matches Some(error) ==> submitting(s, pg, object) == Submission::Refuse(error),
        s.failure is None && s.backoffs.contains_key(id) && s.backoffs[id].pg == pg && covers(
            s.backoffs[id],
            object,
        ) ==> submitting(s, pg, object) is Wait,
        s.failure is None && (forall|k: u64| #[trigger]
            s.backoffs.contains_key(k) ==> s.backoffs[k].pg != pg || !covers(s.backoffs[k], object))
            ==> submitting(s, pg, object) is Send,
{
}

// ---------------------------------------------------------------------------
// Changes under way
// ---------------------------------------------------------------------------

/// A change is admitted under the next number unless admission is closed, 64 changes are under way,
/// or they would hold more than two gibibytes. Then it waits, or is refused.
pub proof fn law_changes_are_admitted_within_limits(s: MutationView, retained: u64)
    requires
        accounted(s),
    ensures
        ({
            let (after, outcome) = admission(s, retained);
            let full = s.pending.dom().len() >= 64 || s.retained_bytes + retained > 0x8000_0000;
            &&& s.admission_closed ==> after == s && outcome == Err::<Option<u64>, Error>(
                Error::Closed,
            )
            &&& !s.admission_closed && full ==> after == s && outcome == Ok::<Option<u64>, Error>(
                None,
            )
            &&& !s.admission_closed && !full && s.next_sequence < u64::MAX ==> {
                &&& outcome == Ok::<Option<u64>, Error>(Some((s.next_sequence + 1) as u64))
                &&& after.next_sequence == s.next_sequence + 1
                &&& after.pending.dom() == s.pending.dom().insert(after.next_sequence)
                &&& after.pending[after.next_sequence] == retained
                &&& after.retained_bytes == s.retained_bytes + retained
                &&& after.earliest_unknown == s.earliest_unknown
                &&& !after.admission_closed
            }
        }),
{
    let (after, outcome) = admission(s, retained);
    assert(after.next_sequence > s.next_sequence ==> after.pending.dom() =~= s.pending.dom().insert(
        after.next_sequence,
    ));
}

/// A change that ends gives back what it held, and nothing else ends with it. If its outcome is not
/// known, its number is kept if it is the lowest of those.
pub proof fn law_ended_change_gives_back_its_bytes(
    s: MutationView,
    sequence: u64,
    error: Option<Error>,
)
    requires
        s.pending.contains_key(sequence),
        s.pending[sequence] <= s.retained_bytes,
    ensures
        ({
            let after = completion(s, sequence, error);
            let lost = error is Some && error->0 is OutcomeUnknown;
            &&& after.pending.dom() == s.pending.dom().remove(sequence)
            &&& after.retained_bytes + s.pending[sequence] == s.retained_bytes
            &&& after.next_sequence == s.next_sequence
            &&& !lost ==> after.earliest_unknown == s.earliest_unknown
            &&& lost ==> after.earliest_unknown is Some && after.earliest_unknown->0 <= sequence
            &&& lost && s.earliest_unknown is Some ==> after.earliest_unknown->0
                <= s.earliest_unknown->0
            &&& lost ==> after.earliest_unknown == s.earliest_unknown || after.earliest_unknown
                == Some(sequence)
        }),
{
    assert(completion(s, sequence, error).pending.dom() =~= s.pending.dom().remove(sequence));
}

/// A flush is done once no change up to its mark is under way. It succeeds if the outcomes of all of
/// them are known.
pub proof fn law_flush_covers_earlier_changes(s: MutationView, watermark: u64)
    ensures
        ({
            let under_way = exists|n: u64| #[trigger] s.pending.contains_key(n) && n <= watermark;
            let lost = s.earliest_unknown is Some && s.earliest_unknown->0 <= watermark;
            &&& under_way ==> flushing(s, watermark) == (Flush::Waiting { unknown: lost })
            &&& !under_way && lost ==> flushing(s, watermark) == Flush::Done(
                Err(Error::OutcomeUnknown(UnknownCause::Transport)),
            )
            &&& !under_way && !lost ==> flushing(s, watermark) == Flush::Done(Ok(()))
        }),
{
}

// ---------------------------------------------------------------------------
// Sessions
// ---------------------------------------------------------------------------

/// Which session is used for a daemon: the one that there is, as long as it is alive, goes to the
/// daemon's address and was made under the present authority; else a new one, to the first address
/// that can be connected to. The old one is then closed.
pub proof fn law_sessions_are_used_again(
    p: PoolView,
    closed: bool,
    osd: i32,
    addresses: Seq<AddressView>,
    authority: Option<u64>,
    ended: bool,
    finished: Seq<u64>,
)
    ensures
        ({
            let (after, chosen) = choosing(p, closed, osd, addresses, authority, ended, finished);
            let index = super::client::routable(addresses);
            let ready = !closed && index is Some && authority is Some;
            let endpoint = endpoint_of(addresses[index->0]);
            let fits = p.sessions.contains_key(osd) && Some(p.sessions[osd].endpoint) == endpoint
                && Some(p.sessions[osd].authority) == authority && !ended;
            &&& closed ==> chosen.choice == Err::<Choice, Error>(Error::Closed)
            &&& !closed && index is None ==> chosen.choice == Err::<Choice, Error>(Error::NoPrimary)
            &&& !closed && index is Some && authority is None ==> chosen.choice == Err::<
                Choice,
                Error,
            >(Error::NotConnected)
            &&& !ready ==> after == p && chosen.close is None
            &&& ready && endpoint is Some && fits ==> after == p && chosen.close is None
                && chosen.choice == Ok::<Choice, Error>(Choice::Reuse(p.sessions[osd].session))
            &&& ready && !p.sessions.contains_key(osd) ==> after == p && chosen.close is None
            &&& ready && endpoint is Some && p.sessions.contains_key(osd) && !fits ==> chosen.close
                == Some(p.sessions[osd].session) && !(chosen.choice matches Ok(Choice::Reuse(_)))
            &&& chosen.choice matches Ok(Choice::Open { index: at, endpoint: to, authority: by })
                ==> {
                &&& Some(to) == Some(endpoint->0)
                &&& authority == Some(by)
                &&& index->0 < usize::MAX ==> at == index->0
                &&& !after.sessions.contains_key(osd)
            }
        }),
{
    super::plan_laws::law_first_endpoint_is_connected_to(addresses);
}

/// A new session has a number of its own, and is remembered for its daemon with where it goes and
/// under which authority.
pub proof fn law_opened_session_is_remembered(
    p: PoolView,
    osd: i32,
    endpoint: Endpoint4,
    authority: u64,
)
    requires
        p.next < u64::MAX,
    ensures
        ({
            let after = opening(p, osd, endpoint, authority);
            &&& after.sessions.contains_key(osd)
            &&& after.sessions[osd].session == p.next
            &&& after.sessions[osd].endpoint == endpoint
            &&& after.sessions[osd].authority == authority
            &&& after.next == p.next + 1
            &&& after.retired == p.retired
            &&& forall|other: i32|
                other != osd ==> #[trigger] after.sessions.contains_key(other)
                    == p.sessions.contains_key(other)
        }),
{
}

/// A session that is given up is kept until it has ended, and up to 16 are: those that have ended
/// are forgotten first.
pub proof fn law_retired_sessions_are_limited(p: PoolView, session: u64, finished: Seq<u64>)
    ensures
        ({
            let (after, done) = retiring(p, session, finished);
            let left = unfinished(p.retired, finished);
            &&& done <==> left.len() < 16
            &&& done ==> after.retired == left.push(session)
            &&& !done ==> after.retired == left
            &&& after.sessions == p.sessions && after.next == p.next
        }),
        forall|s: u64| #[trigger]
            unfinished(p.retired, finished).contains(s) <==> p.retired.contains(s)
                && !finished.contains(s),
{
    lemma_unfinished(p.retired, finished);
}

proof fn lemma_unfinished(sessions: Seq<u64>, finished: Seq<u64>)
    ensures
        forall|s: u64| #[trigger]
            unfinished(sessions, finished).contains(s) <==> sessions.contains(s)
                && !finished.contains(s),
    decreases sessions.len(),
{
    let all = unfinished(sessions, finished);
    if sessions.len() > 0 {
        let shorter = sessions.drop_last();
        let rest = unfinished(shorter, finished);
        lemma_unfinished(shorter, finished);
        assert forall|s: u64| #[trigger] all.contains(s) <==> sessions.contains(s)
            && !finished.contains(s) by {
            if all.contains(s) {
                let k = choose|k: int| 0 <= k < all.len() && all[k] == s;
                if k < rest.len() {
                    assert(rest[k] == s);
                    assert(rest.contains(s));
                    let j = choose|j: int| 0 <= j < shorter.len() && shorter[j] == s;
                    assert(sessions[j] == s);
                } else {
                    assert(sessions[sessions.len() - 1] == s);
                }
            }
            if sessions.contains(s) && !finished.contains(s) {
                let j = choose|j: int| 0 <= j < sessions.len() && sessions[j] == s;
                if j < shorter.len() {
                    assert(shorter[j] == s);
                    assert(rest.contains(s));
                    let k = choose|k: int| 0 <= k < rest.len() && rest[k] == s;
                    assert(all[k] == s);
                } else {
                    assert(all[all.len() - 1] == s);
                }
            }
        }
    } else {
        assert(all.len() == 0);
    }
}

/// A session with a daemon is made for the daemon's address, from no address of its own but with its
/// nonce; it keeps requests and sends them again, has a few attempts to connect, and is given three
/// cookies: one for now and two to change to.
pub proof fn law_daemon_sessions_are_lossless(
    limits: FrameLimits,
    target: AddressView,
    nonce: u32,
    supported: u64,
    required: u64,
    cookies: (u64, u64, u64),
)
    ensures
        ({
            let c = daemon_config(limits, target, nonce, supported, required, cookies);
            &&& c.limits == limits
            &&& c.max_retained_bytes == limits.max_frame_bytes
            &&& c.max_queued_messages == 16
            &&& c.max_in_flight_transactions == 16
            &&& c.max_reconnect_attempts == 2
            &&& c.max_handshake_transitions == 16
            &&& c.reconnect_policy == ReconnectPolicy::ReplayPending
            &&& c.client_ident.target_address == target
            &&& c.client_ident.supported_features == supported
            &&& c.client_ident.required_features == required
            &&& c.client_ident.flags == 0
            &&& c.client_ident.addresses.len() == 1
            &&& c.client_ident.addresses[0].nonce == nonce
            &&& c.client_ident.addresses[0].kind == 2
            &&& c.client_ident.addresses[0].family == 2
            &&& endpoint_of(c.client_ident.addresses[0]) == Some(
                Endpoint4 { a: 0, b: 0, c: 0, d: 0, port: 0 },
            )
            &&& c.client_cookie == cookies.0
            &&& c.replacement_cookies.len() == 2
            &&& c.replacement_cookies[0] == cookies.1
            &&& c.replacement_cookies[1] == cookies.2
            &&& c.server_cookie == 0
            &&& c.global_sequence == 0 && c.connect_sequence == 0
        }),
{
}

} // verus!
