//! Backoffs: ranges of objects that a daemon asks a client to leave alone for a while.

use super::messages::Limits;
use crate::maps::PG;
use crate::msgr::message::{front_only, Message, MessageView};
use crate::wire::{
    bool_byte, bounded, bytes_less, finished, get_bool, get_bytes, get_i32, get_i64, get_i8,
    get_u32, get_u64, get_u8, get_versioned, input, is_bytes_less, le32, le64,
    lemma_bytes_less_irreflexive, lemma_bytes_less_total, lemma_bytes_less_transitive, prefixed, same_bytes,
    unsigned32, unsigned64, unsigned8, versioned, Decoder, Encoder, Input, WireError,
    MAX_ENCODING,
};
use std::cmp::Ordering;
use vstd::prelude::*;
use vstd::slice::slice_to_vec;

verus! {

broadcast use {crate::wire::group_integers, crate::wire::group_reads};

pub const MESSAGE_OSD_BACKOFF: u16 = 61;

pub const BACKOFF_BLOCK: u8 = 1;

pub const BACKOFF_ACK_BLOCK: u8 = 2;

pub const BACKOFF_UNBLOCK: u8 = 3;

/// The place of an object in the order in which a placement group keeps its objects.
#[derive(Debug, PartialEq, Eq)]
pub struct HObject {
    pub key: Vec<u8>,
    pub object: Vec<u8>,
    pub snapshot: u64,
    pub hash: u32,
    pub max: bool,
    pub namespace: Vec<u8>,
    pub pool: i64,
}

#[verifier::ext_equal]
pub struct HObjectView {
    pub key: Seq<u8>,
    pub object: Seq<u8>,
    pub snapshot: u64,
    pub hash: u32,
    pub max: bool,
    pub namespace: Seq<u8>,
    pub pool: i64,
}

impl View for HObject {
    type V = HObjectView;

    open spec fn view(&self) -> HObjectView {
        HObjectView {
            key: self.key@,
            object: self.object@,
            snapshot: self.snapshot,
            hash: self.hash,
            max: self.max,
            namespace: self.namespace@,
            pool: self.pool,
        }
    }
}

impl Clone for HObject {
    fn clone(&self) -> (r: Self)
        ensures
            r@ == self@,
    {
        HObject {
            key: slice_to_vec(self.key.as_slice()),
            object: slice_to_vec(self.object.as_slice()),
            snapshot: self.snapshot,
            hash: self.hash,
            max: self.max,
            namespace: slice_to_vec(self.namespace.as_slice()),
            pool: self.pool,
        }
    }
}

// ---------------------------------------------------------------------------
// Order
// ---------------------------------------------------------------------------

/// The last `count` bits of `h`, last first, behind those of `seen`.
pub open spec fn reversed(h: u32, count: nat, seen: u32) -> u32
    decreases count,
{
    if count == 0 {
        seen
    } else {
        reversed(h >> 1, (count - 1) as nat, (seen << 1) | (h & 1))
    }
}

/// What a hash is ordered by: its bits, last first.
pub open spec fn hash_order(h: u32) -> u32 {
    reversed(h, 32, 0)
}

/// What an object is ordered by after its hash: its key, or its name where it has none.
pub open spec fn effective_key(h: HObjectView) -> Seq<u8> {
    if h.key.len() == 0 {
        h.object
    } else {
        h.key
    }
}

/// Whether `a` comes before `b`. The maximum comes last and stands alone; all others are ordered
/// by pool, hash, namespace, key, name and snapshot, the first difference deciding.
pub open spec fn before(a: HObjectView, b: HObjectView) -> bool {
    if a.max || b.max {
        !a.max && b.max
    } else if a.pool != b.pool {
        a.pool < b.pool
    } else if hash_order(a.hash) != hash_order(b.hash) {
        hash_order(a.hash) < hash_order(b.hash)
    } else if a.namespace != b.namespace {
        bytes_less(a.namespace, b.namespace)
    } else if effective_key(a) != effective_key(b) {
        bytes_less(effective_key(a), effective_key(b))
    } else if a.object != b.object {
        bytes_less(a.object, b.object)
    } else {
        a.snapshot < b.snapshot
    }
}

pub open spec fn hobject_order(a: HObjectView, b: HObjectView) -> Ordering {
    if before(a, b) {
        Ordering::Less
    } else if before(b, a) {
        Ordering::Greater
    } else {
        Ordering::Equal
    }
}

fn reverse_bits(h: u32) -> (r: u32)
    ensures
        r == hash_order(h),
{
    let mut rest: u32 = h;
    let mut seen: u32 = 0;
    let mut left: u32 = 32;
    while left > 0
        invariant
            left <= 32,
            reversed(rest, left as nat, seen) == hash_order(h),
        decreases left,
    {
        seen = (seen << 1) | (rest & 1);
        rest = rest >> 1;
        left = left - 1;
    }
    seen
}

/// The order of two byte strings.
fn compare_bytes(a: &[u8], b: &[u8]) -> (r: Ordering)
    ensures
        r == (if a@ == b@ {
            Ordering::Equal
        } else if bytes_less(a@, b@) {
            Ordering::Less
        } else {
            Ordering::Greater
        }),
{
    if same_bytes(a, b) {
        Ordering::Equal
    } else if is_bytes_less(a, b) {
        Ordering::Less
    } else {
        Ordering::Greater
    }
}

fn effective_key_of(object: &HObject) -> (r: &[u8])
    ensures
        r@ == effective_key(object@),
{
    if object.key.len() == 0 {
        object.object.as_slice()
    } else {
        object.key.as_slice()
    }
}

/// The order of two objects of one pool and hash.
fn compare_names(left: &HObject, right: &HObject) -> (r: Ordering)
    requires
        !left.max,
        !right.max,
        left.pool == right.pool,
        hash_order(left.hash) == hash_order(right.hash),
    ensures
        r == hobject_order(left@, right@),
{
    proof {
        lemma_bytes_less_total(left.namespace@, right.namespace@);
        lemma_bytes_less_total(effective_key(left@), effective_key(right@));
        lemma_bytes_less_total(left.object@, right.object@);
    }
    match compare_bytes(left.namespace.as_slice(), right.namespace.as_slice()) {
        Ordering::Equal => {},
        order => {
            return order;
        },
    }
    match compare_bytes(effective_key_of(left), effective_key_of(right)) {
        Ordering::Equal => {},
        order => {
            return order;
        },
    }
    match compare_bytes(left.object.as_slice(), right.object.as_slice()) {
        Ordering::Equal => {},
        order => {
            return order;
        },
    }
    if left.snapshot < right.snapshot {
        Ordering::Less
    } else if left.snapshot > right.snapshot {
        Ordering::Greater
    } else {
        Ordering::Equal
    }
}

pub fn compare_hobject(left: &HObject, right: &HObject) -> (r: Ordering)
    ensures
        r == hobject_order(left@, right@),
{
    if left.max && right.max {
        return Ordering::Equal;
    }
    if left.max {
        return Ordering::Greater;
    }
    if right.max {
        return Ordering::Less;
    }
    if left.pool < right.pool {
        return Ordering::Less;
    }
    if left.pool > right.pool {
        return Ordering::Greater;
    }
    let left_hash: u32 = reverse_bits(left.hash);
    let right_hash: u32 = reverse_bits(right.hash);
    if left_hash < right_hash {
        return Ordering::Less;
    }
    if left_hash > right_hash {
        return Ordering::Greater;
    }
    compare_names(left, right)
}

/// Objects have a strict order: no object comes before itself, and what comes before an object
/// comes before everything that comes after it.
pub proof fn law_objects_are_ordered(a: HObjectView, b: HObjectView, c: HObjectView)
    ensures
        !before(a, a),
        before(a, b) && before(b, c) ==> before(a, c),
        before(a, b) ==> !before(b, a),
{
    lemma_bytes_order(a.namespace, b.namespace, c.namespace);
    lemma_bytes_order(effective_key(a), effective_key(b), effective_key(c));
    lemma_bytes_order(a.object, b.object, c.object);
}

proof fn lemma_bytes_order(a: Seq<u8>, b: Seq<u8>, c: Seq<u8>)
    ensures
        bytes_less(a, b) ==> !bytes_less(b, a) && a != b,
        bytes_less(a, b) && bytes_less(b, c) ==> bytes_less(a, c) && a != c,
{
    lemma_bytes_less_irreflexive(a);
    if bytes_less(a, b) && bytes_less(b, a) {
        lemma_bytes_less_transitive(a, b, a);
    }
    if bytes_less(a, b) && bytes_less(b, c) {
        lemma_bytes_less_transitive(a, b, c);
    }
}

// ---------------------------------------------------------------------------
// Objects on the wire
// ---------------------------------------------------------------------------

/// The fields of an object.
pub open spec fn hobject_payload(h: HObjectView) -> Seq<u8> {
    prefixed(h.key) + (prefixed(h.object) + (le64(h.snapshot) + (le32(h.hash) + (bool_byte(h.max)
        + (prefixed(h.namespace) + le64(unsigned64(h.pool)))))))
}

/// An object on the wire.
pub open spec fn hobject_bytes(h: HObjectView) -> Seq<u8> {
    versioned(4, 3, hobject_payload(h))
}

/// The object that a payload of this version holds. Before the fourth version an object had
/// neither namespace nor pool.
#[verifier::opaque]
pub open spec fn hobject_fields(version: u8, d: Input) -> Result<HObjectView, WireError> {
    let (key, d1) = get_bytes(d);
    let (object, d2) = get_bytes(d1);
    let (snapshot, d3) = get_u64(d2);
    let (hash, d4) = get_u32(d3);
    let (max, d5) = get_bool(d4);
    let (namespace, d6) = if version >= 4 {
        get_bytes(d5)
    } else {
        (Seq::empty(), d5)
    };
    let (pool, d7) = if version >= 4 {
        get_i64(d6)
    } else {
        (i64::MIN, d6)
    };
    if finished(d7) is Err {
        Err(finished(d7)->Err_0)
    } else if d7.rest.len() != 0 {
        Err(WireError::Malformed)
    } else {
        Ok(HObjectView { key, object, snapshot, hash, max, namespace, pool })
    }
}

/// The next object of the input.
#[verifier::opaque]
pub open spec fn get_hobject(d: Input) -> Result<(HObjectView, Input), WireError> {
    let (version, payload, d1) = get_versioned(d, 4);
    if finished(d1) is Err {
        Err(finished(d1)->Err_0)
    } else if version < 3 || version > 4 {
        Err(WireError::UnsupportedVersion { local: 4, required: version })
    } else {
        match hobject_fields(version, payload) {
            Err(error) => Err(error),
            Ok(object) => Ok((object, d1)),
        }
    }
}

pub fn encode_hobject(encoder: &mut Encoder, object: &HObject)
    requires
        old(encoder).wf(),
    ensures
        final(encoder).wf(),
        final(encoder).limit() == old(encoder).limit(),
        final(encoder)@ == old(encoder)@ + hobject_bytes(object@),
{
    let mut payload = encoder.nested();
    payload.bytes(object.key.as_slice());
    payload.bytes(object.object.as_slice());
    payload.u64(object.snapshot);
    payload.u32(object.hash);
    payload.bool(object.max);
    payload.bytes(object.namespace.as_slice());
    payload.i64(object.pool);
    assert(payload@ =~= hobject_payload(object@));
    encoder.versioned(4, 3, payload);
}

/// An object off the front of the input. The versioned entry is taken as a whole, whether what it
/// holds is read or refused.
pub fn decode_hobject(decoder: &mut Decoder<'_>) -> (r: Result<HObject, WireError>)
    ensures
        r matches Ok(object) ==> get_hobject(old(decoder)@) == Ok::<
            (HObjectView, Input),
            WireError,
        >((object@, final(decoder)@)),
        r matches Err(error) ==> get_hobject(old(decoder)@) == Err::<
            (HObjectView, Input),
            WireError,
        >(error),
        final(decoder)@ == get_versioned(old(decoder)@, 4).2,
{
    proof {
        reveal(get_hobject);
        reveal(hobject_fields);
    }
    let (version, mut payload) = decoder.versioned(4);
    decoder.finish()?;
    if version < 3 || version > 4 {
        return Err(WireError::UnsupportedVersion { local: 4, required: version });
    }
    let key = payload.bytes();
    let object = payload.bytes();
    let snapshot: u64 = payload.u64();
    let hash: u32 = payload.u32();
    let max = payload.bool();
    let mut namespace: Vec<u8> = Vec::new();
    let mut pool: i64 = i64::MIN;
    if version >= 4 {
        namespace = payload.bytes();
        pool = payload.i64();
    }
    payload.finish()?;
    if payload.remaining() != 0 {
        return Err(WireError::Malformed);
    }
    Ok(HObject { key, object, snapshot, hash, max, namespace, pool })
}

/// Reading an object that was written gives it back.
pub proof fn law_hobject_reads_back(h: HObjectView, tail: Seq<u8>)
    requires
        hobject_payload(h).len() <= MAX_ENCODING,
    ensures
        get_hobject(input(hobject_bytes(h) + tail)) == Ok::<(HObjectView, Input), WireError>(
            (h, input(tail)),
        ),
{
    reveal(get_hobject);
    reveal(hobject_fields);
    let pool = le64(unsigned64(h.pool));
    assert(pool =~= pool + Seq::<u8>::empty());
}

// ---------------------------------------------------------------------------
// Backoffs
// ---------------------------------------------------------------------------

/// A range of objects of a placement group that is blocked or no longer blocked.
#[derive(Debug, PartialEq, Eq)]
pub struct Backoff {
    pub pg: PG,
    pub shard: i8,
    pub map_epoch: u32,
    pub operation: u8,
    pub id: u64,
    pub begin: HObject,
    pub end: HObject,
}

#[verifier::ext_equal]
pub struct BackoffView {
    pub pg: PG,
    pub shard: i8,
    pub map_epoch: u32,
    pub operation: u8,
    pub id: u64,
    pub begin: HObjectView,
    pub end: HObjectView,
}

impl View for Backoff {
    type V = BackoffView;

    open spec fn view(&self) -> BackoffView {
        BackoffView {
            pg: self.pg,
            shard: self.shard,
            map_epoch: self.map_epoch,
            operation: self.operation,
            id: self.id,
            begin: self.begin@,
            end: self.end@,
        }
    }
}

impl Clone for Backoff {
    fn clone(&self) -> (r: Self)
        ensures
            r@ == self@,
    {
        Backoff {
            pg: self.pg,
            shard: self.shard,
            map_epoch: self.map_epoch,
            operation: self.operation,
            id: self.id,
            begin: self.begin.clone(),
            end: self.end.clone(),
        }
    }
}

/// Whether an object is in the range: from the beginning, which belongs to it, to the end, which
/// does not. A range that ends where it begins holds that one place.
pub open spec fn covers(b: BackoffView, target: HObjectView) -> bool {
    if hobject_order(b.begin, b.end) == Ordering::Equal {
        hobject_order(target, b.begin) == Ordering::Equal
    } else {
        !before(target, b.begin) && before(target, b.end)
    }
}

impl Backoff {
    pub fn contains(&self, target: &HObject) -> (r: bool)
        ensures
            r == covers(self@, target@),
    {
        proof {
            law_objects_are_ordered(self.begin@, target@, self.begin@);
            law_objects_are_ordered(target@, self.begin@, target@);
        }
        if matches!(compare_hobject(&self.begin, &self.end), Ordering::Equal) {
            return matches!(compare_hobject(target, &self.begin), Ordering::Equal);
        }
        !matches!(compare_hobject(&self.begin, target), Ordering::Greater) && matches!(
            compare_hobject(target, &self.end),
            Ordering::Less
        )
    }
}

/// A placement group and the shard of it.
pub open spec fn spg_payload(pg: PG, shard: i8) -> Seq<u8> {
    seq![1u8] + (le64(pg.pool) + (le32(pg.seed) + (le32(unsigned32(pg.preferred)) + seq![
        unsigned8(shard),
    ])))
}

pub open spec fn spg_bytes(pg: PG, shard: i8) -> Seq<u8> {
    versioned(1, 1, spg_payload(pg, shard))
}

#[verifier::opaque]
pub open spec fn get_spg(d: Input) -> Result<((PG, i8), Input), WireError> {
    let (version, payload, rest) = get_versioned(d, 1);
    let (marker, d1) = get_u8(payload);
    let (pool, d2) = get_u64(d1);
    let (seed, d3) = get_u32(d2);
    let (preferred, d4) = get_i32(d3);
    let (shard, d5) = get_i8(d4);
    if finished(rest) is Err {
        Err(finished(rest)->Err_0)
    } else if version != 1 || marker != 1 {
        Err(WireError::UnsupportedVersion { local: 1, required: version })
    } else if finished(d5) is Err {
        Err(finished(d5)->Err_0)
    } else if d5.rest.len() != 0 {
        Err(WireError::Malformed)
    } else {
        Ok(((PG { pool, seed, preferred }, shard), rest))
    }
}

/// A backoff on the wire, as this operation.
pub open spec fn backoff_front(b: BackoffView, operation: u8) -> Seq<u8> {
    spg_bytes(b.pg, b.shard) + (le32(b.map_epoch) + (seq![operation] + (le64(b.id) + (
    hobject_bytes(b.begin) + hobject_bytes(b.end)))))
}

/// The backoff that a front holds.
#[verifier::opaque]
pub open spec fn backoff_fields(d: Input) -> Result<BackoffView, WireError> {
    match get_spg(d) {
        Err(error) => Err(error),
        Ok(((pg, shard), d1)) => {
            let (map_epoch, d2) = get_u32(d1);
            let (operation, d3) = get_u8(d2);
            let (id, d4) = get_u64(d3);
            if operation != BACKOFF_BLOCK && operation != BACKOFF_UNBLOCK {
                Err(
                    WireError::UnsupportedVersion {
                        local: BACKOFF_UNBLOCK,
                        required: operation,
                    },
                )
            } else {
                match get_hobject(d4) {
                    Err(error) => Err(error),
                    Ok((begin, d5)) => match get_hobject(d5) {
                        Err(error) => Err(error),
                        Ok((end, d6)) => if finished(d6) is Err {
                            Err(finished(d6)->Err_0)
                        } else if d6.rest.len() != 0 {
                            Err(WireError::Malformed)
                        } else {
                            Ok(BackoffView { pg, shard, map_epoch, operation, id, begin, end })
                        },
                    },
                }
            }
        },
    }
}

/// What `decode_backoff` yields.
pub open spec fn backoff_decoding(m: MessageView, limits: Limits) -> Result<
    BackoffView,
    WireError,
> {
    if limits.max_bytes == 0 || m.header.message_type != MESSAGE_OSD_BACKOFF || m.header.version
        != 1 || m.header.compat_version > 1 || m.middle.len() != 0 || m.data.len() != 0
        || m.front.len() > limits.max_bytes {
        Err(WireError::Malformed)
    } else {
        backoff_fields(input(m.front))
    }
}

/// What `encode` yields.
pub open spec fn backoff_encoding(b: BackoffView, operation: u8, limits: Limits) -> Result<
    MessageView,
    WireError,
> {
    match bounded(backoff_front(b, operation), limits.max_bytes as nat) {
        Err(error) => Err(error),
        Ok(front) => Ok(front_only(MESSAGE_OSD_BACKOFF, 1, 1, front)),
    }
}

pub fn encode_spg(encoder: &mut Encoder, pg: PG, shard: i8)
    requires
        old(encoder).wf(),
    ensures
        final(encoder).wf(),
        final(encoder).limit() == old(encoder).limit(),
        final(encoder)@ == old(encoder)@ + spg_bytes(pg, shard),
{
    let mut payload = encoder.nested();
    payload.u8(1);
    payload.u64(pg.pool);
    payload.u32(pg.seed);
    payload.i32(pg.preferred);
    payload.i8(shard);
    assert(payload@ =~= spg_payload(pg, shard));
    encoder.versioned(1, 1, payload);
}

fn decode_spg(decoder: &mut Decoder<'_>) -> (r: Result<(PG, i8), WireError>)
    ensures
        r matches Ok(spg) ==> get_spg(old(decoder)@) == Ok::<((PG, i8), Input), WireError>(
            (spg, final(decoder)@),
        ),
        r matches Err(error) ==> get_spg(old(decoder)@) == Err::<((PG, i8), Input), WireError>(
            error,
        ),
{
    reveal(get_spg);
    let (version, mut payload) = decoder.versioned(1);
    decoder.finish()?;
    let marker: u8 = payload.u8();
    if version != 1 || marker != 1 {
        return Err(WireError::UnsupportedVersion { local: 1, required: version });
    }
    let pool: u64 = payload.u64();
    let seed: u32 = payload.u32();
    let preferred: i32 = payload.i32();
    let shard: i8 = payload.i8();
    payload.finish()?;
    if payload.remaining() != 0 {
        return Err(WireError::Malformed);
    }
    Ok((PG { pool, seed, preferred }, shard))
}

pub fn decode_backoff(message: &Message, limits: Limits) -> (r: Result<Backoff, WireError>)
    ensures
        r matches Ok(backoff) ==> backoff_decoding(message@, limits) == Ok::<
            BackoffView,
            WireError,
        >(backoff@),
        r matches Err(error) ==> backoff_decoding(message@, limits) == Err::<
            BackoffView,
            WireError,
        >(error),
{
    reveal(backoff_fields);
    if limits.max_bytes == 0 || message.header.message_type != MESSAGE_OSD_BACKOFF
        || message.header.version != 1 || message.header.compat_version > 1
        || message.middle.len() != 0 || message.data.len() != 0 || message.front.len()
        > limits.max_bytes as usize {
        return Err(WireError::Malformed);
    }
    let mut decoder = Decoder::new(message.front.as_slice(), limits.max_bytes as usize);
    let (pg, shard) = decode_spg(&mut decoder)?;
    let map_epoch: u32 = decoder.u32();
    let operation: u8 = decoder.u8();
    if operation != BACKOFF_BLOCK && operation != BACKOFF_UNBLOCK {
        return Err(
            WireError::UnsupportedVersion { local: BACKOFF_UNBLOCK, required: operation },
        );
    }
    let id: u64 = decoder.u64();
    let begin = decode_hobject(&mut decoder)?;
    let end = decode_hobject(&mut decoder)?;
    decoder.finish()?;
    if decoder.remaining() != 0 {
        return Err(WireError::Malformed);
    }
    Ok(Backoff { pg, shard, map_epoch, operation, id, begin, end })
}

/// A backoff as a message with this operation.
pub fn encode(backoff: &Backoff, operation: u8, limits: Limits) -> (r: Result<Message, WireError>)
    ensures
        r matches Ok(message) ==> backoff_encoding(backoff@, operation, limits) == Ok::<
            MessageView,
            WireError,
        >(message@),
        r matches Err(error) ==> backoff_encoding(backoff@, operation, limits) == Err::<
            MessageView,
            WireError,
        >(error),
{
    let mut front = Encoder::new(limits.max_bytes as usize);
    encode_spg(&mut front, backoff.pg, backoff.shard);
    front.u32(backoff.map_epoch);
    front.u8(operation);
    front.u64(backoff.id);
    encode_hobject(&mut front, &backoff.begin);
    encode_hobject(&mut front, &backoff.end);
    assert(front@ =~= backoff_front(backoff@, operation));
    let front = front.finish()?;
    Ok(Message::front_only(MESSAGE_OSD_BACKOFF, 1, 1, front))
}

/// The acknowledgment of a backoff that blocks.
pub fn encode_acknowledgment(backoff: &Backoff, limits: Limits) -> (r: Result<Message, WireError>)
    ensures
        r matches Ok(message) ==> limits.max_bytes != 0 && backoff.operation == BACKOFF_BLOCK
            && backoff_encoding(backoff@, BACKOFF_ACK_BLOCK, limits) == Ok::<
            MessageView,
            WireError,
        >(message@),
        r matches Err(error) ==> if limits.max_bytes == 0 || backoff.operation != BACKOFF_BLOCK {
            error == WireError::Malformed
        } else {
            backoff_encoding(backoff@, BACKOFF_ACK_BLOCK, limits) == Err::<
                MessageView,
                WireError,
            >(error)
        },
{
    if limits.max_bytes == 0 || backoff.operation != BACKOFF_BLOCK {
        return Err(WireError::Malformed);
    }
    encode(backoff, BACKOFF_ACK_BLOCK, limits)
}

/// A backoff that blocks or unblocks reads back from the message that carries it.
pub proof fn law_backoff_reads_back(b: BackoffView, limits: Limits)
    requires
        b.operation == BACKOFF_BLOCK || b.operation == BACKOFF_UNBLOCK,
        limits.max_bytes != 0,
        backoff_encoding(b, b.operation, limits) is Ok,
    ensures
        backoff_decoding(backoff_encoding(b, b.operation, limits)->Ok_0, limits) == Ok::<
            BackoffView,
            WireError,
        >(b),
{
    reveal(backoff_fields);
    let none = Seq::<u8>::empty();
    let end = hobject_bytes(b.end);
    assert(end =~= end + none);
    assert(get_spg(input(backoff_front(b, b.operation))) == Ok::<((PG, i8), Input), WireError>(
        (
            (b.pg, b.shard),
            input(
                le32(b.map_epoch) + (seq![b.operation] + (le64(b.id) + (hobject_bytes(b.begin)
                    + end))),
            ),
        ),
    )) by {
        reveal(get_spg);
        let last = seq![unsigned8(b.shard)];
        assert(last =~= last + none);
    }
    law_hobject_reads_back(b.begin, end);
    law_hobject_reads_back(b.end, none);
}

// ---------------------------------------------------------------------------
// Views
// ---------------------------------------------------------------------------

/// What stands for a value of this type has its fields.
pub proof fn law_hobject_has_its_fields(x: HObject)
    ensures
        x@.key == x.key@,
        x@.object == x.object@,
        x@.snapshot == x.snapshot,
        x@.hash == x.hash,
        x@.max == x.max,
        x@.namespace == x.namespace@,
        x@.pool == x.pool,
{
}

/// What stands for a value of this type has its fields.
pub proof fn law_backoff_has_its_fields(x: Backoff)
    ensures
        x@.pg == x.pg,
        x@.shard == x.shard,
        x@.map_epoch == x.map_epoch,
        x@.operation == x.operation,
        x@.id == x.id,
        x@.begin == x.begin@,
        x@.end == x.end@,
{
}

} // verus!
