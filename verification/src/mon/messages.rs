//! Messages to and from monitors.

use crate::maps::{Fsid, Limits as MapLimits, MapError};
use crate::msgr::message::{front_only, Message, MessageLengths, MessageView};
use crate::wire::{
    bytes_less, concatenated, finished, get_bytes, get_i16, get_i32, get_raw, get_u32, get_u64,
    get_u8, is_bytes_less, is_empty_text, le16, le32, le64, lemma_bytes_less_irreflexive,
    lemma_bytes_less_total, lemma_bytes_less_transitive, limited_input, same_bytes, text,
    unsigned16, Decoder, Encoder, Input, WireError,
};
use std::collections::BTreeMap;
use vstd::prelude::*;
use vstd::slice::slice_to_vec;
use vstd::utf8::encode_utf8;

verus! {

broadcast use {
    crate::wire::group_integers,
    vstd::std_specs::btree::group_btree_axioms,
    vstd::laws_cmp::group_laws_cmp,
};

pub const MESSAGE_MON_MAP: u16 = 4;

pub const MESSAGE_MON_SUBSCRIBE: u16 = 15;

pub const MESSAGE_MON_SUBSCRIBE_ACK: u16 = 16;

pub const MESSAGE_OSD_MAP: u16 = 41;

pub const MESSAGE_POOL_OPERATION_REPLY: u16 = 48;

pub const MESSAGE_POOL_OPERATION: u16 = 49;

pub const MESSAGE_MGR_MAP: u16 = 0x704;

pub const SUBSCRIBE_ONCE: u8 = 1;

#[derive(Clone, Copy, Debug, PartialEq, Eq)]
pub enum MessageError {
    Wire(WireError),
    BadMap(MapError),
    Malformed(&'static str),
    UnsupportedVersion,
}

/// What to be told of a kind of map: from which epoch on, and whether once or always.
#[derive(Clone, Copy, Debug, PartialEq, Eq, Structural)]
pub struct Subscription {
    pub start: u64,
    pub flags: u8,
}

#[derive(Clone, Copy, Debug, PartialEq, Eq)]
pub struct SubscribeAck {
    pub interval_seconds: u32,
    pub fsid: Fsid,
}

#[derive(Clone, Copy, Debug, PartialEq, Eq, Structural)]
pub struct MessageLimits {
    pub max_bytes: u32,
    pub max_maps: u32,
}

// ---------------------------------------------------------------------------
// Fronts
// ---------------------------------------------------------------------------

/// What is wrong with a message that must be all front.
pub open spec fn front_fault(m: MessageView, message_type: u16, max_bytes: u32) -> Option<
    MessageError,
> {
    if max_bytes == 0 || m.front.len() > max_bytes {
        Some(MessageError::Wire(WireError::LimitExceeded))
    } else if m.header.message_type != message_type {
        Some(MessageError::Malformed("message type"))
    } else if m.middle.len() != 0 || m.data.len() != 0 || m.lengths != (MessageLengths {
        front: m.front.len() as u32,
        middle: 0,
        data: 0,
    }) {
        Some(MessageError::Malformed("segment lengths"))
    } else {
        None
    }
}

pub fn validate_front_message(message: &Message, message_type: u16, max_bytes: u32) -> (r: Result<
    (),
    MessageError,
>)
    ensures
        match r {
            Ok(_) => front_fault(message@, message_type, max_bytes) is None,
            Err(error) => front_fault(message@, message_type, max_bytes) == Some(error),
        },
{
    if max_bytes == 0 || message.front.len() > max_bytes as usize {
        return Err(MessageError::Wire(WireError::LimitExceeded));
    }
    if message.header.message_type != message_type {
        return Err(MessageError::Malformed("message type"));
    }
    if message.middle.len() != 0 || message.data.len() != 0 || message.lengths.front
        != message.front.len() as u32 || message.lengths.middle != 0 || message.lengths.data != 0 {
        return Err(MessageError::Malformed("segment lengths"));
    }
    Ok(())
}

/// A message that is all front, if its length can be written.
pub fn front_message(message_type: u16, version: u16, compat_version: u16, front: Vec<u8>) -> (r:
    Result<Message, MessageError>)
    ensures
        match r {
            Ok(message) => front@.len() <= u32::MAX && message@ == front_only(
                message_type,
                version,
                compat_version,
                front@,
            ),
            Err(error) => front@.len() > u32::MAX && error == MessageError::Wire(
                WireError::LimitExceeded,
            ),
        },
{
    if front.len() as u64 > u32::MAX as u64 {
        return Err(MessageError::Wire(WireError::LimitExceeded));
    }
    Ok(Message::front_only(message_type, version, compat_version, front))
}

/// What is wrong with an input that should have been read to its end.
pub open spec fn end_fault(d: Input, name: &'static str) -> Option<MessageError> {
    if finished(d) is Err {
        Some(MessageError::Wire(finished(d)->Err_0))
    } else if d.rest.len() != 0 {
        Some(MessageError::Malformed(name))
    } else {
        None
    }
}

fn finish_exact(decoder: &Decoder<'_>, name: &'static str) -> (r: Result<(), MessageError>)
    ensures
        match r {
            Ok(_) => end_fault(decoder@, name) is None,
            Err(error) => end_fault(decoder@, name) == Some(error),
        },
{
    match decoder.finish() {
        Ok(_) => {},
        Err(error) => {
            return Err(MessageError::Wire(error));
        },
    }
    if decoder.remaining() != 0 {
        return Err(MessageError::Malformed(name));
    }
    Ok(())
}

/// The next cluster identity of the input.
pub open spec fn get_fsid(d: Input) -> Result<(Seq<u8>, Input), MessageError> {
    let (bytes, d1) = get_raw(d, 16);
    if bytes.len() != 16 {
        Err(MessageError::Wire(WireError::Malformed))
    } else {
        Ok((bytes, d1))
    }
}

fn decode_fsid(decoder: &mut Decoder<'_>) -> (r: Result<Fsid, MessageError>)
    ensures
        r matches Ok(fsid) ==> get_fsid(old(decoder)@) == Ok::<(Seq<u8>, Input), MessageError>(
            (fsid@, final(decoder)@),
        ),
        r matches Err(error) ==> get_fsid(old(decoder)@) == Err::<
            (Seq<u8>, Input),
            MessageError,
        >(error),
{
    let bytes = decoder.raw(16);
    if bytes.len() != 16 {
        return Err(MessageError::Wire(WireError::Malformed));
    }
    let mut fsid: [u8; 16] = [0;16];
    let mut i: usize = 0;
    while i < 16
        invariant
            i <= 16,
            bytes@.len() == 16,
            fsid@.len() == 16,
            forall|j: int| 0 <= j < i ==> fsid@[j] == bytes@[j],
        decreases 16 - i,
    {
        fsid[i] = bytes[i];
        i = i + 1;
    }
    assert(fsid@ =~= bytes@);
    Ok(Fsid(fsid))
}

// ---------------------------------------------------------------------------
// Subscriptions
// ---------------------------------------------------------------------------

/// Subscriptions by the names of the maps, in the order of the names.
#[derive(Debug, PartialEq, Eq)]
pub struct Subscriptions {
    pub entries: Vec<(String, Subscription)>,
}

pub open spec fn subscriptions_view(entries: Seq<(String, Subscription)>) -> Seq<
    (Seq<char>, Subscription),
> {
    Seq::new(entries.len(), |i: int| (entries[i].0@, entries[i].1))
}

impl View for Subscriptions {
    type V = Seq<(Seq<char>, Subscription)>;

    open spec fn view(&self) -> Seq<(Seq<char>, Subscription)> {
        subscriptions_view(self.entries@)
    }
}

/// Names ascend by their bytes.
pub open spec fn names_ascend(entries: Seq<(Seq<char>, Subscription)>) -> bool {
    forall|i: int, j: int|
        0 <= i < j < entries.len() ==> bytes_less(
            encode_utf8((#[trigger] entries[i]).0),
            encode_utf8((#[trigger] entries[j]).0),
        )
}

impl Subscriptions {
    pub open spec fn wf(&self) -> bool {
        names_ascend(self@)
    }

    pub fn new() -> (r: Self)
        ensures
            r@.len() == 0,
            r.wf(),
    {
        Subscriptions { entries: Vec::new() }
    }

    /// Sets the subscription of a name, in place of one that it may have.
    pub fn insert(&mut self, name: String, subscription: Subscription)
        requires
            old(self).wf(),
        ensures
            final(self).wf(),
            exists|at: int|
                0 <= at <= old(self)@.len() && ((at < old(self)@.len() && old(self)@[at].0 == name@
                    && final(self)@ == old(self)@.update(at, (name@, subscription))) || (
                final(self)@ == #[trigger] old(self)@.insert(at, (name@, subscription)) && forall|
                    i: int,
                |
                    0 <= i < old(self)@.len() ==> (#[trigger] old(self)@[i]).0 != name@)),
    {
        let ghost before = self@;
        let ghost key = encode_utf8(name@);
        let mut at: usize = self.entries.len();
        while at > 0 && is_bytes_less(
            name.as_str().as_bytes(),
            self.entries[at - 1].0.as_str().as_bytes(),
        )
            invariant
                at <= self.entries@.len(),
                before == self@,
                names_ascend(before),
                key == encode_utf8(name@),
                forall|i: int|
                    at <= i < before.len() ==> bytes_less(
                        key,
                        encode_utf8((#[trigger] before[i]).0),
                    ),
            decreases at,
        {
            assert(before[at - 1].0 == self.entries@[at - 1].0@);
            at = at - 1;
        }
        if at > 0 {
            let same = same_bytes(
                self.entries[at - 1].0.as_str().as_bytes(),
                name.as_str().as_bytes(),
            );
            proof {
                assert(before[at - 1].0 == self.entries@[at - 1].0@);
                vstd::utf8::encode_utf8_decode_utf8(name@);
                vstd::utf8::encode_utf8_decode_utf8(before[at - 1].0);
            }
            if same {
                self.entries.set(at - 1, (name, subscription));
                proof {
                    assert(self@ =~= before.update(at - 1, (name@, subscription)));
                    assert(before.insert(at - 1, (name@, subscription)).len() > 0);
                    assert(names_ascend(self@)) by {
                        assert forall|i: int, j: int| 0 <= i < j < self@.len() implies bytes_less(
                            encode_utf8((#[trigger] self@[i]).0),
                            encode_utf8((#[trigger] self@[j]).0),
                        ) by {
                            assert(bytes_less(encode_utf8(before[i].0), encode_utf8(before[j].0)));
                        }
                    }
                }
                return;
            }
        }
        proof {
            assert forall|i: int| 0 <= i < at implies bytes_less(
                encode_utf8((#[trigger] before[i]).0),
                key,
            ) by {
                assert(before[at - 1].0 == self.entries@[at - 1].0@);
                lemma_bytes_less_total(encode_utf8(before[at - 1].0), key);
                if i < at - 1 {
                    assert(bytes_less(encode_utf8(before[i].0), encode_utf8(before[at - 1].0)));
                    lemma_bytes_less_transitive(
                        encode_utf8(before[i].0),
                        encode_utf8(before[at - 1].0),
                        key,
                    );
                }
            }
            lemma_bytes_less_irreflexive(key);
        }
        self.entries.insert(at, (name, subscription));
        proof {
            let after = before.insert(at as int, (name@, subscription));
            assert(self@ =~= after);
            assert forall|i: int, j: int| 0 <= i < j < after.len() implies bytes_less(
                encode_utf8((#[trigger] after[i]).0),
                encode_utf8((#[trigger] after[j]).0),
            ) by {
                let i2 = if i < at { i } else { i - 1 };
                let j2 = if j < at { j } else { j - 1 };
                if i != at && j != at {
                    assert(bytes_less(encode_utf8(before[i2].0), encode_utf8(before[j2].0)));
                }
            }
            assert forall|i: int| 0 <= i < before.len() implies (#[trigger] before[i]).0 != name@ by {
                if i < at {
                    assert(bytes_less(encode_utf8(before[i].0), key));
                } else {
                    assert(bytes_less(key, encode_utf8(before[i].0)));
                }
            }
        }
    }
}

pub open spec fn subscription_encoder() -> spec_fn((Seq<char>, Subscription)) -> Seq<u8> {
    |entry: (Seq<char>, Subscription)|
        text(entry.0) + (le64(entry.1.start) + seq![entry.1.flags])
}

pub open spec fn subscribe_front(
    entries: Seq<(Seq<char>, Subscription)>,
    hostname: Seq<char>,
) -> Seq<u8> {
    le32(entries.len() as u32) + (concatenated(entries, subscription_encoder()) + text(hostname))
}

/// What `encode_subscribe` yields.
pub open spec fn subscribe_encoding(
    entries: Seq<(Seq<char>, Subscription)>,
    hostname: Seq<char>,
    max_bytes: u32,
) -> Result<MessageView, MessageError> {
    if max_bytes == 0 || subscribe_front(entries, hostname).len() > max_bytes {
        Err(MessageError::Wire(WireError::LimitExceeded))
    } else {
        Ok(front_only(MESSAGE_MON_SUBSCRIBE, 3, 1, subscribe_front(entries, hostname)))
    }
}

pub fn encode_subscribe(subscriptions: &Subscriptions, hostname: &str, max_bytes: u32) -> (r:
    Result<Message, MessageError>)
    ensures
        r matches Ok(message) ==> subscribe_encoding(subscriptions@, hostname@, max_bytes)
            == Ok::<MessageView, MessageError>(message@),
        r matches Err(error) ==> subscribe_encoding(subscriptions@, hostname@, max_bytes)
            == Err::<MessageView, MessageError>(error),
{
    if max_bytes == 0 {
        return Err(MessageError::Wire(WireError::LimitExceeded));
    }
    let ghost all = subscriptions@;
    let mut encoder = Encoder::new(max_bytes as usize);
    encoder.u32(#[verifier::truncate] (subscriptions.entries.len() as u32));
    let ghost start = encoder@;
    let ghost limit = encoder.limit();
    let mut i: usize = 0;
    assert(encoder@ =~= start + concatenated(all.take(0), subscription_encoder()));
    while i < subscriptions.entries.len()
        invariant
            i <= subscriptions.entries@.len(),
            all == subscriptions@,
            encoder.wf(),
            encoder.limit() == limit,
            encoder@ == start + concatenated(all.take(i as int), subscription_encoder()),
        decreases subscriptions.entries@.len() - i,
    {
        let subscription = subscriptions.entries[i].1;
        encoder.string(subscriptions.entries[i].0.as_str());
        encoder.u64(subscription.start);
        encoder.u8(subscription.flags);
        assert(all.take(i + 1).drop_last() =~= all.take(i as int));
        assert(encoder@ =~= start + concatenated(all.take(i + 1), subscription_encoder()));
        i = i + 1;
    }
    assert(all.take(i as int) =~= all);
    encoder.string(hostname);
    assert(encoder@ =~= subscribe_front(all, hostname@));
    match encoder.finish() {
        Ok(front) => front_message(MESSAGE_MON_SUBSCRIBE, 3, 1, front),
        Err(error) => Err(MessageError::Wire(error)),
    }
}

/// What `decode_subscribe_ack` yields: the interval and the cluster.
pub open spec fn ack_decoding(m: MessageView, max_bytes: u32) -> Result<
    (u32, Seq<u8>),
    MessageError,
> {
    let (interval, d1) = get_u32(limited_input(m.front, max_bytes as nat));
    match front_fault(m, MESSAGE_MON_SUBSCRIBE_ACK, max_bytes) {
        Some(error) => Err(error),
        None => match get_fsid(d1) {
            Err(error) => Err(error),
            Ok((fsid, d2)) => match end_fault(d2, "subscribe acknowledgement") {
                Some(error) => Err(error),
                None => Ok((interval, fsid)),
            },
        },
    }
}

pub fn decode_subscribe_ack(message: &Message, max_bytes: u32) -> (r: Result<
    SubscribeAck,
    MessageError,
>)
    ensures
        r matches Ok(ack) ==> ack_decoding(message@, max_bytes) == Ok::<
            (u32, Seq<u8>),
            MessageError,
        >((ack.interval_seconds, ack.fsid@)),
        r matches Err(error) ==> ack_decoding(message@, max_bytes) == Err::<
            (u32, Seq<u8>),
            MessageError,
        >(error),
{
    validate_front_message(message, MESSAGE_MON_SUBSCRIBE_ACK, max_bytes)?;
    let mut decoder = Decoder::new(message.front.as_slice(), max_bytes as usize);
    let interval_seconds: u32 = decoder.u32();
    let fsid = decode_fsid(&mut decoder)?;
    finish_exact(&decoder, "subscribe acknowledgement")?;
    Ok(SubscribeAck { interval_seconds, fsid })
}

// ---------------------------------------------------------------------------
// Operations on pools
// ---------------------------------------------------------------------------

/// What to do to the snapshots of a pool.
#[derive(Clone, Copy, Debug, PartialEq, Eq, Structural)]
pub enum PoolOperation {
    Create,
    Delete,
    CreateSelfManaged,
    DeleteSelfManaged,
}

pub open spec fn pool_operation_code(operation: PoolOperation) -> u32 {
    match operation {
        PoolOperation::Create => 0x11,
        PoolOperation::Delete => 0x12,
        PoolOperation::CreateSelfManaged => 0x21,
        PoolOperation::DeleteSelfManaged => 0x22,
    }
}

impl PoolOperation {
    pub fn code(self) -> (r: u32)
        ensures
            r == pool_operation_code(self),
            r == 0x11 <==> self == PoolOperation::Create,
            r == 0x12 <==> self == PoolOperation::Delete,
            r == 0x21 <==> self == PoolOperation::CreateSelfManaged,
            r == 0x22 <==> self == PoolOperation::DeleteSelfManaged,
    {
        match self {
            PoolOperation::Create => 0x11,
            PoolOperation::Delete => 0x12,
            PoolOperation::CreateSelfManaged => 0x21,
            PoolOperation::DeleteSelfManaged => 0x22,
        }
    }
}

/// Whether an operation takes this snapshot and this name: snapshots of a pool have names, and
/// self-managed ones have numbers.
pub open spec fn valid_snapshot(operation: PoolOperation, snapshot: u64, name: Seq<char>) -> bool {
    match operation {
        PoolOperation::Create => snapshot == 0 && name.len() > 0,
        PoolOperation::Delete => snapshot == 0 && name.len() > 0,
        PoolOperation::CreateSelfManaged => snapshot == 0 && name.len() == 0,
        PoolOperation::DeleteSelfManaged => snapshot != 0 && name.len() == 0,
    }
}

/// What comes before the operation.
pub open spec fn pool_head(fsid: Seq<u8>, have_version: u64, pool: u32) -> Seq<u8> {
    le64(have_version) + (le16(unsigned16((-1int) as i16)) + (le64(0) + (fsid + le32(pool))))
}

/// The operation and its arguments.
pub open spec fn pool_arguments(operation: PoolOperation, snapshot: u64, name: Seq<char>) -> Seq<
    u8,
> {
    le32(pool_operation_code(operation)) + (le64(0) + (le64(snapshot) + (text(name) + (seq![0u8]
        + le16(unsigned16(0))))))
}

/// What `encode_pool_operation` yields.
pub open spec fn pool_encoding(
    fsid: Seq<u8>,
    have_version: u64,
    pool: u32,
    operation: PoolOperation,
    snapshot: u64,
    name: Seq<char>,
    max_bytes: u32,
) -> Result<MessageView, MessageError> {
    let front = pool_head(fsid, have_version, pool) + pool_arguments(operation, snapshot, name);
    if !valid_snapshot(operation, snapshot, name) || max_bytes == 0 {
        Err(MessageError::Wire(WireError::Malformed))
    } else if front.len() > max_bytes {
        Err(MessageError::Wire(WireError::LimitExceeded))
    } else {
        Ok(front_only(MESSAGE_POOL_OPERATION, 4, 2, front))
    }
}

fn encode_pool_head(encoder: &mut Encoder, fsid: &Fsid, have_version: u64, pool: u32)
    requires
        old(encoder).wf(),
    ensures
        final(encoder).wf(),
        final(encoder).limit() == old(encoder).limit(),
        final(encoder)@ == old(encoder)@ + pool_head(fsid@, have_version, pool),
{
    encoder.u64(have_version);
    encoder.i16(-1);
    encoder.u64(0);
    encoder.raw(fsid.0.as_slice());
    encoder.u32(pool);
    assert(encoder@ =~= old(encoder)@ + pool_head(fsid@, have_version, pool));
}

fn encode_pool_arguments(
    encoder: &mut Encoder,
    operation: PoolOperation,
    snapshot: u64,
    name: &str,
)
    requires
        old(encoder).wf(),
    ensures
        final(encoder).wf(),
        final(encoder).limit() == old(encoder).limit(),
        final(encoder)@ == old(encoder)@ + pool_arguments(operation, snapshot, name@),
{
    encoder.u32(operation.code());
    encoder.u64(0);
    encoder.u64(snapshot);
    encoder.string(name);
    encoder.u8(0);
    encoder.i16(0);
    assert(encoder@ =~= old(encoder)@ + pool_arguments(operation, snapshot, name@));
}

pub fn encode_pool_operation(
    fsid: Fsid,
    have_version: u64,
    pool: u32,
    operation: PoolOperation,
    snapshot: u64,
    name: &str,
    max_bytes: u32,
) -> (r: Result<Message, MessageError>)
    ensures
        r matches Ok(message) ==> pool_encoding(
            fsid@,
            have_version,
            pool,
            operation,
            snapshot,
            name@,
            max_bytes,
        ) == Ok::<MessageView, MessageError>(message@),
        r matches Err(error) ==> pool_encoding(
            fsid@,
            have_version,
            pool,
            operation,
            snapshot,
            name@,
            max_bytes,
        ) == Err::<MessageView, MessageError>(error),
{
    let valid = match operation {
        PoolOperation::Create => snapshot == 0 && !is_empty_text(name),
        PoolOperation::Delete => snapshot == 0 && !is_empty_text(name),
        PoolOperation::CreateSelfManaged => snapshot == 0 && is_empty_text(name),
        PoolOperation::DeleteSelfManaged => snapshot != 0 && is_empty_text(name),
    };
    if !valid || max_bytes == 0 {
        return Err(MessageError::Wire(WireError::Malformed));
    }
    let mut encoder = Encoder::new(max_bytes as usize);
    encode_pool_head(&mut encoder, &fsid, have_version, pool);
    encode_pool_arguments(&mut encoder, operation, snapshot, name);
    assert(encoder@ =~= pool_head(fsid@, have_version, pool) + pool_arguments(
        operation,
        snapshot,
        name@,
    ));
    match encoder.finish() {
        Ok(front) => front_message(MESSAGE_POOL_OPERATION, 4, 2, front),
        Err(error) => Err(MessageError::Wire(error)),
    }
}

#[derive(Clone, Debug, PartialEq, Eq)]
pub struct PoolOperationReply {
    pub fsid: Fsid,
    pub result: i32,
    pub epoch: u32,
    pub response_data: Vec<u8>,
}

#[verifier::ext_equal]
pub struct PoolReplyView {
    pub fsid: Seq<u8>,
    pub result: i32,
    pub epoch: u32,
    pub response_data: Seq<u8>,
}

impl View for PoolOperationReply {
    type V = PoolReplyView;

    open spec fn view(&self) -> PoolReplyView {
        PoolReplyView {
            fsid: self.fsid@,
            result: self.result,
            epoch: self.epoch,
            response_data: self.response_data@,
        }
    }
}

/// What `decode_pool_operation_reply` yields.
pub open spec fn pool_decoding(m: MessageView, max_bytes: u32) -> Result<
    PoolReplyView,
    MessageError,
> {
    let d1 = get_u64(limited_input(m.front, max_bytes as nat)).1;
    let d2 = get_i16(d1).1;
    let d3 = get_u64(d2).1;
    match front_fault(m, MESSAGE_POOL_OPERATION_REPLY, max_bytes) {
        Some(error) => Err(error),
        None => if m.header.compat_version > 1 {
            Err(MessageError::UnsupportedVersion)
        } else {
            match get_fsid(d3) {
                Err(error) => Err(error),
                Ok((fsid, d4)) => {
                    let (result, d5) = get_i32(d4);
                    let (epoch, d6) = get_u32(d5);
                    let (flag, d7) = get_u8(d6);
                    let (response_data, d8) = if flag == 1 {
                        get_bytes(d7)
                    } else {
                        (Seq::empty(), d7)
                    };
                    if flag > 1 {
                        Err(MessageError::Malformed("pool operation response-data flag"))
                    } else {
                        match end_fault(d8, "pool operation reply") {
                            Some(error) => Err(error),
                            None => Ok(PoolReplyView { fsid, result, epoch, response_data }),
                        }
                    }
                },
            }
        },
    }
}

pub fn decode_pool_operation_reply(message: &Message, max_bytes: u32) -> (r: Result<
    PoolOperationReply,
    MessageError,
>)
    ensures
        r matches Ok(reply) ==> pool_decoding(message@, max_bytes) == Ok::<
            PoolReplyView,
            MessageError,
        >(reply@),
        r matches Err(error) ==> pool_decoding(message@, max_bytes) == Err::<
            PoolReplyView,
            MessageError,
        >(error),
{
    validate_front_message(message, MESSAGE_POOL_OPERATION_REPLY, max_bytes)?;
    if message.header.compat_version > 1 {
        return Err(MessageError::UnsupportedVersion);
    }
    let mut decoder = Decoder::new(message.front.as_slice(), max_bytes as usize);
    decoder.u64();
    decoder.i16();
    decoder.u64();
    let fsid = decode_fsid(&mut decoder)?;
    let result: i32 = decoder.i32();
    let epoch: u32 = decoder.u32();
    let flag: u8 = decoder.u8();
    let mut response_data: Vec<u8> = Vec::new();
    if flag == 1 {
        response_data = decoder.bytes();
    } else if flag != 0 {
        return Err(MessageError::Malformed("pool operation response-data flag"));
    }
    finish_exact(&decoder, "pool operation reply")?;
    let reply = PoolOperationReply { fsid, result, epoch, response_data };
    assert(flag == 0 ==> reply@.response_data =~= Seq::empty());
    Ok(reply)
}

/// What `decode_allocated_snapshot_id` yields. No snapshot has the number zero.
pub open spec fn snapshot_decoding(data: Seq<u8>, max_bytes: nat) -> Result<u64, MessageError> {
    let (snapshot, d) = get_u64(limited_input(data, max_bytes));
    match end_fault(d, "allocated snapshot ID") {
        Some(error) => Err(error),
        None => if snapshot == 0 {
            Err(MessageError::Malformed("zero allocated snapshot ID"))
        } else {
            Ok(snapshot)
        },
    }
}

pub fn decode_allocated_snapshot_id(data: &[u8], max_bytes: usize) -> (r: Result<
    u64,
    MessageError,
>)
    ensures
        r == snapshot_decoding(data@, max_bytes as nat),
{
    let mut decoder = Decoder::new(data, max_bytes);
    let snapshot: u64 = decoder.u64();
    finish_exact(&decoder, "allocated snapshot ID")?;
    if snapshot == 0 {
        return Err(MessageError::Malformed("zero allocated snapshot ID"));
    }
    Ok(snapshot)
}

// ---------------------------------------------------------------------------
// Maps
// ---------------------------------------------------------------------------

/// The monitor map that a message carries, as it was encoded.
pub open spec fn monmap_decoding(m: MessageView, limits: MapLimits) -> Result<
    Seq<u8>,
    MessageError,
> {
    let (encoded, d) = get_bytes(limited_input(m.front, limits.max_bytes as nat));
    match front_fault(m, MESSAGE_MON_MAP, limits.max_bytes) {
        Some(error) => Err(error),
        None => match end_fault(d, "monmap") {
            Some(error) => Err(error),
            None => Ok(encoded),
        },
    }
}

/// The monitor map that a message carries, as it was encoded.
pub fn decode_monmap_message(message: &Message, limits: MapLimits) -> (r: Result<
    Vec<u8>,
    MessageError,
>)
    ensures
        crate::wire::bytes_result(r) == monmap_decoding(message@, limits),
{
    validate_front_message(message, MESSAGE_MON_MAP, limits.max_bytes)?;
    let mut decoder = Decoder::new(message.front.as_slice(), limits.max_bytes as usize);
    let encoded = decoder.bytes();
    finish_exact(&decoder, "monmap")?;
    Ok(encoded)
}

/// The manager map that a message carries, as it was encoded.
pub fn decode_mgrmap_message(message: &Message, limits: MapLimits) -> (r: Result<
    Vec<u8>,
    MessageError,
>)
    ensures
        crate::wire::bytes_result(r) == (match front_fault(
            message@,
            MESSAGE_MGR_MAP,
            limits.max_bytes,
        ) {
            Some(error) => Err(error),
            None => if message@.header.version != 1 || message@.header.compat_version != 1 {
                Err(MessageError::UnsupportedVersion)
            } else {
                Ok(message@.front)
            },
        }),
{
    validate_front_message(message, MESSAGE_MGR_MAP, limits.max_bytes)?;
    if message.header.version != 1 || message.header.compat_version != 1 {
        return Err(MessageError::UnsupportedVersion);
    }
    Ok(slice_to_vec(message.front.as_slice()))
}

/// Maps of the storage daemons by their epochs, as they were encoded.
#[derive(Clone, Debug, PartialEq, Eq)]
pub struct OSDMapBatch {
    pub fsid: Fsid,
    pub incrementals: BTreeMap<u32, Vec<u8>>,
    pub full_maps: BTreeMap<u32, Vec<u8>>,
    pub trim_lower_bound: u32,
    pub newest_map: u32,
}

#[verifier::ext_equal]
pub struct BatchView {
    pub fsid: Seq<u8>,
    pub incrementals: Map<u32, Seq<u8>>,
    pub full_maps: Map<u32, Seq<u8>>,
    pub trim_lower_bound: u32,
    pub newest_map: u32,
}

pub open spec fn blobs_view(blobs: Map<u32, Vec<u8>>) -> Map<u32, Seq<u8>> {
    blobs.map_values(|blob: Vec<u8>| blob@)
}

impl View for OSDMapBatch {
    type V = BatchView;

    open spec fn view(&self) -> BatchView {
        BatchView {
            fsid: self.fsid@,
            incrementals: blobs_view(self.incrementals@),
            full_maps: blobs_view(self.full_maps@),
            trim_lower_bound: self.trim_lower_bound,
            newest_map: self.newest_map,
        }
    }
}

/// The next `count` epochs and maps. No epoch may come twice.
pub open spec fn get_epochs(d: Input, count: nat) -> Result<
    (Map<u32, Seq<u8>>, Input),
    MessageError,
>
    decreases count,
{
    if count == 0 {
        Ok((Map::empty(), d))
    } else {
        match get_epochs(d, (count - 1) as nat) {
            Err(error) => Err(error),
            Ok((maps, d1)) => {
                let (epoch, d2) = get_u32(d1);
                let (blob, d3) = get_bytes(d2);
                if finished(d3) is Err {
                    Err(MessageError::Wire(finished(d3)->Err_0))
                } else if maps.contains_key(epoch) {
                    Err(MessageError::Malformed("duplicate osdmap epoch"))
                } else {
                    Ok((maps.insert(epoch, blob), d3))
                }
            },
        }
    }
}

proof fn lemma_epochs_error(d: Input, part: nat, count: nat)
    requires
        part <= count,
        get_epochs(d, part) is Err,
    ensures
        get_epochs(d, count) == get_epochs(d, part),
    decreases count,
{
    if part < count {
        lemma_epochs_error(d, part, (count - 1) as nat);
    }
}

/// The next maps of the input, at most `maximum` of them.
pub open spec fn get_blobs(d: Input, maximum: u32) -> Result<
    (Map<u32, Seq<u8>>, Input),
    MessageError,
> {
    let (count, d1) = get_u32(d);
    if finished(d1) is Err {
        Err(MessageError::Wire(finished(d1)->Err_0))
    } else if count > maximum {
        Err(MessageError::Wire(WireError::LimitExceeded))
    } else if count > d1.rest.len() / 8 {
        Err(MessageError::Wire(WireError::Malformed))
    } else {
        get_epochs(d1, count as nat)
    }
}

fn decode_map_blobs(decoder: &mut Decoder<'_>, maximum: u32) -> (r: Result<
    BTreeMap<u32, Vec<u8>>,
    MessageError,
>)
    ensures
        r matches Ok(blobs) ==> get_blobs(old(decoder)@, maximum) == Ok::<
            (Map<u32, Seq<u8>>, Input),
            MessageError,
        >((blobs_view(blobs@), final(decoder)@)),
        r matches Err(error) ==> get_blobs(old(decoder)@, maximum) == Err::<
            (Map<u32, Seq<u8>>, Input),
            MessageError,
        >(error),
{
    let count: u32 = decoder.u32();
    match decoder.finish() {
        Ok(_) => {},
        Err(error) => {
            return Err(MessageError::Wire(error));
        },
    }
    if count > maximum {
        return Err(MessageError::Wire(WireError::LimitExceeded));
    }
    if count as u64 > decoder.remaining() as u64 / 8 {
        return Err(MessageError::Wire(WireError::Malformed));
    }
    let ghost start = decoder@;
    let mut values: BTreeMap<u32, Vec<u8>> = BTreeMap::new();
    let mut i: u32 = 0;
    assert(blobs_view(values@) =~= Map::empty());
    while i < count
        invariant
            i <= count,
            get_blobs(old(decoder)@, maximum) == get_epochs(start, count as nat),
            get_epochs(start, i as nat) == Ok::<(Map<u32, Seq<u8>>, Input), MessageError>(
                (blobs_view(values@), decoder@),
            ),
        decreases count - i,
    {
        let ghost before = values@;
        proof {
            if get_epochs(start, (i + 1) as nat) is Err {
                lemma_epochs_error(start, (i + 1) as nat, count as nat);
            }
        }
        let epoch: u32 = decoder.u32();
        let value = decoder.bytes();
        match decoder.finish() {
            Ok(_) => {},
            Err(error) => {
                return Err(MessageError::Wire(error));
            },
        }
        if values.contains_key(&epoch) {
            return Err(MessageError::Malformed("duplicate osdmap epoch"));
        }
        values.insert(epoch, value);
        assert(blobs_view(values@) =~= blobs_view(before).insert(epoch, value@));
        i = i + 1;
    }
    Ok(values)
}

/// What `decode_osdmap_batch` yields.
pub open spec fn batch_decoding(m: MessageView, limits: MessageLimits) -> Result<
    BatchView,
    MessageError,
> {
    if limits.max_bytes == 0 || limits.max_maps == 0 {
        Err(MessageError::Wire(WireError::LimitExceeded))
    } else {
        match front_fault(m, MESSAGE_OSD_MAP, limits.max_bytes) {
            Some(error) => Err(error),
            None => if m.header.version < 3 || m.header.compat_version > 4 {
                Err(MessageError::UnsupportedVersion)
            } else {
                batch_fields(limited_input(m.front, limits.max_bytes as nat), m.header.version, limits)
            },
        }
    }
}

/// The batch that a front of this version holds. The fourth version says how many maps are left
/// out, and none may be.
#[verifier::opaque]
pub open spec fn batch_fields(d: Input, version: u16, limits: MessageLimits) -> Result<
    BatchView,
    MessageError,
> {
    match get_fsid(d) {
        Err(error) => Err(error),
        Ok((fsid, d1)) => match get_blobs(d1, limits.max_maps) {
            Err(error) => Err(error),
            Ok((incrementals, d2)) => match get_blobs(d2, limits.max_maps) {
                Err(error) => Err(error),
                Ok((full_maps, d3)) => {
                    let (trim_lower_bound, d4) = get_u32(d3);
                    let (newest_map, d5) = get_u32(d4);
                    let (gap, d6) = if version >= 4 {
                        get_u32(d5)
                    } else {
                        (0u32, d5)
                    };
                    if gap != 0 {
                        Err(MessageError::UnsupportedVersion)
                    } else {
                        match end_fault(d6, "osdmap") {
                            Some(error) => Err(error),
                            None => Ok(
                                BatchView {
                                    fsid,
                                    incrementals,
                                    full_maps,
                                    trim_lower_bound,
                                    newest_map,
                                },
                            ),
                        }
                    }
                },
            },
        },
    }
}

pub fn decode_osdmap_batch(message: &Message, limits: MessageLimits) -> (r: Result<
    OSDMapBatch,
    MessageError,
>)
    ensures
        r matches Ok(batch) ==> batch_decoding(message@, limits) == Ok::<BatchView, MessageError>(
            batch@,
        ),
        r matches Err(error) ==> batch_decoding(message@, limits) == Err::<
            BatchView,
            MessageError,
        >(error),
{
    reveal(batch_fields);
    if limits.max_bytes == 0 || limits.max_maps == 0 {
        return Err(MessageError::Wire(WireError::LimitExceeded));
    }
    validate_front_message(message, MESSAGE_OSD_MAP, limits.max_bytes)?;
    if message.header.version < 3 || message.header.compat_version > 4 {
        return Err(MessageError::UnsupportedVersion);
    }
    let mut decoder = Decoder::new(message.front.as_slice(), limits.max_bytes as usize);
    let fsid = decode_fsid(&mut decoder)?;
    let incrementals = decode_map_blobs(&mut decoder, limits.max_maps)?;
    let full_maps = decode_map_blobs(&mut decoder, limits.max_maps)?;
    let trim_lower_bound: u32 = decoder.u32();
    let newest_map: u32 = decoder.u32();
    if message.header.version >= 4 && decoder.u32() != 0 {
        return Err(MessageError::UnsupportedVersion);
    }
    finish_exact(&decoder, "osdmap")?;
    Ok(OSDMapBatch { fsid, incrementals, full_maps, trim_lower_bound, newest_map })
}

/// What is wrong with a map that came as that of a cluster and an epoch.
pub open spec fn identity_fault(
    expected_fsid: Seq<u8>,
    expected_epoch: u32,
    fsid: Seq<u8>,
    epoch: u32,
) -> Option<MessageError> {
    if fsid != expected_fsid {
        Some(MessageError::BadMap(MapError::FsidMismatch))
    } else if epoch != expected_epoch {
        Some(MessageError::BadMap(MapError::InvalidSequence))
    } else {
        None
    }
}

pub fn validate_map_identity(
    expected_fsid: Fsid,
    expected_epoch: u32,
    fsid: Fsid,
    epoch: u32,
) -> (r: Result<(), MessageError>)
    ensures
        match r {
            Ok(_) => identity_fault(expected_fsid@, expected_epoch, fsid@, epoch) is None,
            Err(error) => identity_fault(expected_fsid@, expected_epoch, fsid@, epoch) == Some(
                error,
            ),
        },
{
    if !fsid.same(&expected_fsid) {
        return Err(MessageError::BadMap(MapError::FsidMismatch));
    }
    if epoch != expected_epoch {
        return Err(MessageError::BadMap(MapError::InvalidSequence));
    }
    Ok(())
}

/// A map of a batch: the epoch that it came under, and the cluster and the epoch that it says,
/// unless it could not be read.
#[derive(Clone, Copy, Debug, PartialEq, Eq)]
pub struct MapIdentity {
    pub expected_epoch: u32,
    pub fsid: Fsid,
    pub epoch: u32,
    pub fault: Option<MapError>,
}

/// What is wrong with a map of a batch.
pub open spec fn map_fault(fsid: Seq<u8>, map: MapIdentity) -> Option<MessageError> {
    match map.fault {
        Some(error) => Some(MessageError::BadMap(error)),
        None => identity_fault(fsid, map.expected_epoch, map.fsid@, map.epoch),
    }
}

/// The first fault among the maps of a batch.
pub open spec fn batch_fault(fsid: Seq<u8>, maps: Seq<MapIdentity>) -> Option<MessageError>
    decreases maps.len(),
{
    if maps.len() == 0 {
        None
    } else {
        match batch_fault(fsid, maps.drop_last()) {
            Some(error) => Some(error),
            None => map_fault(fsid, maps.last()),
        }
    }
}

proof fn lemma_batch_fault(fsid: Seq<u8>, maps: Seq<MapIdentity>, n: int)
    requires
        0 <= n <= maps.len(),
        batch_fault(fsid, maps.take(n)) is Some,
    ensures
        batch_fault(fsid, maps) == batch_fault(fsid, maps.take(n)),
    decreases maps.len() - n,
{
    if n < maps.len() {
        assert(maps.take(n + 1).drop_last() =~= maps.take(n));
        lemma_batch_fault(fsid, maps, n + 1);
    } else {
        assert(maps.take(n) =~= maps);
    }
}

/// Whether every map of a batch could be read and is of the cluster and the epoch that it came as.
pub fn validate_batch_maps(fsid: Fsid, maps: &Vec<MapIdentity>) -> (r: Result<(), MessageError>)
    ensures
        match r {
            Ok(_) => batch_fault(fsid@, maps@) is None,
            Err(error) => batch_fault(fsid@, maps@) == Some(error),
        },
{
    let mut i: usize = 0;
    assert(maps@.take(0) =~= Seq::empty());
    while i < maps.len()
        invariant
            i <= maps@.len(),
            batch_fault(fsid@, maps@.take(i as int)) is None,
        decreases maps@.len() - i,
    {
        let map = maps[i];
        assert(maps@.take(i + 1).drop_last() =~= maps@.take(i as int));
        let outcome = match map.fault {
            Some(error) => Err(MessageError::BadMap(error)),
            None => validate_map_identity(fsid, map.expected_epoch, map.fsid, map.epoch),
        };
        match outcome {
            Ok(_) => {},
            Err(error) => {
                proof {
                    lemma_batch_fault(fsid@, maps@, i + 1);
                }
                return Err(error);
            },
        }
        i = i + 1;
    }
    assert(maps@.take(i as int) =~= maps@);
    Ok(())
}

// ---------------------------------------------------------------------------
// Views
// ---------------------------------------------------------------------------

/// What stands for a value of this type has its fields.
pub proof fn law_pool_operation_reply_has_its_fields(x: PoolOperationReply)
    ensures
        x@.fsid == x.fsid@,
        x@.result == x.result,
        x@.epoch == x.epoch,
        x@.response_data == x.response_data@,
{
}

/// What stands for a value of this type has its fields.
pub proof fn law_osdmap_batch_has_its_fields(x: OSDMapBatch)
    ensures
        x@.fsid == x.fsid@,
        x@.incrementals == (blobs_view(x.incrementals@)),
        x@.full_maps == (blobs_view(x.full_maps@)),
        x@.trim_lower_bound == x.trim_lower_bound,
        x@.newest_map == x.newest_map,
{
}

} // verus!
