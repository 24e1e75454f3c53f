//! Watching objects: notifications and who is notified.

use crate::msgr::message::{Message, MessageView};
use crate::protocol::address::{address_text, get_address, EntityAddr};
use crate::wire::{
    bounded, bytes_result, finished, get_bytes, get_i32, get_i64, get_many, get_u32, get_u64,
    get_u8, get_versioned, le32, le64, lemma_get_many_error, limited_input, prefixed, Decoder,
    Encoder, Input, WireError,
};
use vstd::prelude::*;
use vstd::slice::slice_to_vec;

verus! {

broadcast use crate::wire::group_integers;

pub const MESSAGE_WATCH_NOTIFY: u16 = 44;

pub const OPERATION_UNWATCH: u8 = 0;

pub const OPERATION_REGISTER: u8 = 3;

pub const OPERATION_RECONNECT: u8 = 5;

pub const OPERATION_PING: u8 = 7;

pub const EVENT_NOTIFY: u8 = 1;

pub const EVENT_COMPLETE: u8 = 2;

pub const EVENT_DISCONNECT: u8 = 3;

/// The kind of entity that clients are.
pub const ENTITY_CLIENT: u8 = 8;

/// Something that happened to a watched object.
#[derive(Clone, Debug, PartialEq, Eq)]
pub struct Notification {
    pub cookie: u64,
    pub version: u64,
    pub notify_id: u64,
    pub opcode: u8,
    pub data: Vec<u8>,
    pub result: i32,
    pub notifier: u64,
}

pub struct NotificationView {
    pub cookie: u64,
    pub version: u64,
    pub notify_id: u64,
    pub opcode: u8,
    pub data: Seq<u8>,
    pub result: i32,
    pub notifier: u64,
}

impl View for Notification {
    type V = NotificationView;

    open spec fn view(&self) -> NotificationView {
        NotificationView {
            cookie: self.cookie,
            version: self.version,
            notify_id: self.notify_id,
            opcode: self.opcode,
            data: self.data@,
            result: self.result,
            notifier: self.notifier,
        }
    }
}

/// A watcher that acknowledged a notification, and what it said.
#[derive(Clone, Debug, PartialEq, Eq)]
pub struct Acknowledgment {
    pub client: u64,
    pub cookie: u64,
    pub data: Vec<u8>,
}

pub struct AcknowledgmentView {
    pub client: u64,
    pub cookie: u64,
    pub data: Seq<u8>,
}

impl View for Acknowledgment {
    type V = AcknowledgmentView;

    open spec fn view(&self) -> AcknowledgmentView {
        AcknowledgmentView { client: self.client, cookie: self.cookie, data: self.data@ }
    }
}

pub open spec fn acknowledgments_view(items: Seq<Acknowledgment>) -> Seq<AcknowledgmentView> {
    Seq::new(items.len(), |i: int| items[i]@)
}

/// A watcher that did not answer in time.
#[derive(Clone, Copy, Debug, PartialEq, Eq, Structural)]
pub struct Timeout {
    pub client: u64,
    pub cookie: u64,
}

#[derive(Clone, Debug, PartialEq, Eq)]
pub struct WatcherInfo {
    pub client: u64,
    pub cookie: u64,
    pub timeout_seconds: u32,
    pub address: String,
}

pub struct WatcherView {
    pub client: u64,
    pub cookie: u64,
    pub timeout_seconds: u32,
    pub address: Seq<char>,
}

impl View for WatcherInfo {
    type V = WatcherView;

    open spec fn view(&self) -> WatcherView {
        WatcherView {
            client: self.client,
            cookie: self.cookie,
            timeout_seconds: self.timeout_seconds,
            address: self.address@,
        }
    }
}

pub open spec fn watchers_view(items: Seq<WatcherInfo>) -> Seq<WatcherView> {
    Seq::new(items.len(), |i: int| items[i]@)
}

/// The payload of a notification.
/// What a notification asks for: how long to wait for watchers, and what to tell them.
pub open spec fn notify_bytes(timeout_seconds: u32, data: Seq<u8>) -> Seq<u8> {
    le32(1) + (le32(timeout_seconds) + prefixed(data))
}

/// What a watcher answers to a notification.
pub open spec fn ack_bytes(notify_id: u64, cookie: u64, data: Seq<u8>) -> Seq<u8> {
    le64(notify_id) + (le64(cookie) + prefixed(data))
}

pub fn encode_notify(timeout_seconds: u32, data: &[u8], max_bytes: usize) -> (r: Result<
    Vec<u8>,
    WireError,
>)
    ensures
        bytes_result(r) == bounded(
            notify_bytes(timeout_seconds, data@),
            max_bytes as nat,
        ),
{
    let mut encoder = Encoder::new(max_bytes);
    encoder.u32(1);
    encoder.u32(timeout_seconds);
    encoder.bytes(data);
    assert(encoder@ =~= le32(1) + (le32(timeout_seconds) + prefixed(data@)));
    encoder.finish()
}

/// The payload that acknowledges a notification.
pub fn encode_ack(notify_id: u64, cookie: u64, data: &[u8], max_bytes: usize) -> (r: Result<
    Vec<u8>,
    WireError,
>)
    ensures
        bytes_result(r) == if notify_id == 0 || cookie == 0 {
            Err(WireError::Malformed)
        } else {
            bounded(ack_bytes(notify_id, cookie, data@), max_bytes as nat)
        },
{
    if notify_id == 0 || cookie == 0 {
        return Err(WireError::Malformed);
    }
    let mut encoder = Encoder::new(max_bytes);
    encoder.u64(notify_id);
    encoder.u64(cookie);
    encoder.bytes(data);
    assert(encoder@ =~= le64(notify_id) + (le64(cookie) + prefixed(data@)));
    encoder.finish()
}

/// What `decode_notification` yields. The data is in the front or behind it, not in both.
pub open spec fn notification_decoding(m: MessageView, max_bytes: nat) -> Result<
    NotificationView,
    WireError,
> {
    let (message_version, d1) = get_u8(limited_input(m.front, max_bytes));
    let (opcode, d2) = get_u8(d1);
    let (cookie, d3) = get_u64(d2);
    let (version, d4) = get_u64(d3);
    let (notify_id, d5) = get_u64(d4);
    let (front_data, d6) = get_bytes(d5);
    let (result, d7) = if m.header.version >= 2 {
        get_i32(d6)
    } else {
        (0i32, d6)
    };
    let (notifier, d8) = if m.header.version >= 3 {
        get_u64(d7)
    } else {
        (0u64, d7)
    };
    if m.front.len() + m.data.len() > usize::MAX {
        Err(WireError::LimitExceeded)
    } else if max_bytes == 0 || m.header.message_type != MESSAGE_WATCH_NOTIFY || m.header.version
        < 1 || m.header.version > 3 || m.header.compat_version > 1 || m.middle.len() != 0
        || m.front.len() + m.data.len() > max_bytes {
        Err(WireError::Malformed)
    } else if message_version == 0 || cookie == 0 || (opcode != EVENT_NOTIFY && opcode
        != EVENT_COMPLETE && opcode != EVENT_DISCONNECT) {
        Err(WireError::Malformed)
    } else if front_data.len() != 0 && m.data.len() != 0 {
        Err(WireError::Malformed)
    } else if finished(d8) is Err {
        Err(finished(d8)->Err_0)
    } else if d8.rest.len() != 0 {
        Err(WireError::Malformed)
    } else {
        Ok(
            NotificationView {
                cookie,
                version,
                notify_id,
                opcode,
                data: if m.data.len() == 0 {
                    front_data
                } else {
                    m.data
                },
                result,
                notifier,
            },
        )
    }
}

pub fn decode_notification(message: &Message, max_bytes: usize) -> (r: Result<
    Notification,
    WireError,
>)
    ensures
        r matches Ok(notification) ==> notification_decoding(message@, max_bytes as nat) == Ok::<
            NotificationView,
            WireError,
        >(notification@),
        r matches Err(error) ==> notification_decoding(message@, max_bytes as nat) == Err::<
            NotificationView,
            WireError,
        >(error),
{
    let total: usize = match message.front.len().checked_add(message.data.len()) {
        Some(total) => total,
        None => {
            return Err(WireError::LimitExceeded);
        },
    };
    if max_bytes == 0 || message.header.message_type != MESSAGE_WATCH_NOTIFY
        || message.header.version < 1 || message.header.version > 3
        || message.header.compat_version > 1 || message.middle.len() != 0 || total > max_bytes {
        return Err(WireError::Malformed);
    }
    let mut decoder = Decoder::new(message.front.as_slice(), max_bytes);
    let message_version: u8 = decoder.u8();
    let opcode: u8 = decoder.u8();
    let cookie: u64 = decoder.u64();
    let version: u64 = decoder.u64();
    let notify_id: u64 = decoder.u64();
    if message_version == 0 || cookie == 0 || (opcode != EVENT_NOTIFY && opcode != EVENT_COMPLETE
        && opcode != EVENT_DISCONNECT) {
        return Err(WireError::Malformed);
    }
    let front_data = decoder.bytes();
    if front_data.len() != 0 && message.data.len() != 0 {
        return Err(WireError::Malformed);
    }
    let result: i32 = if message.header.version >= 2 {
        decoder.i32()
    } else {
        0
    };
    let notifier: u64 = if message.header.version >= 3 {
        decoder.u64()
    } else {
        0
    };
    decoder.finish()?;
    if decoder.remaining() != 0 {
        return Err(WireError::Malformed);
    }
    let data = if message.data.len() == 0 {
        front_data
    } else {
        slice_to_vec(message.data.as_slice())
    };
    Ok(Notification { cookie, version, notify_id, opcode, data, result, notifier })
}

pub open spec fn acknowledgment_decoder() -> spec_fn(Input) -> Result<
    (AcknowledgmentView, Input),
    WireError,
> {
    |d: Input|
        {
            let (client, d1) = get_u64(d);
            let (cookie, d2) = get_u64(d1);
            let (data, d3) = get_bytes(d2);
            if finished(d3) is Err {
                Err(finished(d3)->Err_0)
            } else {
                Ok((AcknowledgmentView { client, cookie, data }, d3))
            }
        }
}

pub open spec fn timeout_decoder() -> spec_fn(Input) -> Result<(Timeout, Input), WireError> {
    |d: Input|
        {
            let (client, d1) = get_u64(d);
            let (cookie, d2) = get_u64(d1);
            Ok((Timeout { client, cookie }, d2))
        }
}

/// What `decode_notify_result` yields: who acknowledged and who did not, at most `max_entries`
/// together.
pub open spec fn notify_decoding(data: Seq<u8>, max_bytes: nat, max_entries: nat) -> Result<
    (Seq<AcknowledgmentView>, Seq<Timeout>),
    WireError,
> {
    let (count, d1) = get_u32(limited_input(data, max_bytes));
    if finished(d1) is Err {
        Err(finished(d1)->Err_0)
    } else if count > max_entries || count * 20 > d1.rest.len() {
        Err(WireError::LimitExceeded)
    } else {
        match get_many(d1, count as nat, acknowledgment_decoder()) {
            Err(error) => Err(error),
            Ok((acknowledged, d2)) => {
                let (missing, d3) = get_u32(d2);
                if finished(d3) is Err {
                    Err(finished(d3)->Err_0)
                } else if missing > max_entries - count || missing * 16 > d3.rest.len() {
                    Err(WireError::LimitExceeded)
                } else {
                    let (timed_out, d4) = get_many(d3, missing as nat, timeout_decoder())->Ok_0;
                    if finished(d4) is Err {
                        Err(finished(d4)->Err_0)
                    } else if d4.rest.len() != 0 {
                        Err(WireError::Malformed)
                    } else {
                        Ok((acknowledged, timed_out))
                    }
                }
            },
        }
    }
}

fn decode_acknowledgments(decoder: &mut Decoder<'_>, count: u32) -> (r: Result<
    Vec<Acknowledgment>,
    WireError,
>)
    ensures
        r matches Ok(items) ==> get_many(
            old(decoder)@,
            count as nat,
            acknowledgment_decoder(),
        ) == Ok::<(Seq<AcknowledgmentView>, Input), WireError>(
            (acknowledgments_view(items@), final(decoder)@),
        ) && items@.len() == count,
        r matches Err(error) ==> get_many(
            old(decoder)@,
            count as nat,
            acknowledgment_decoder(),
        ) == Err::<(Seq<AcknowledgmentView>, Input), WireError>(error),
{
    let ghost start = decoder@;
    let ghost item = acknowledgment_decoder();
    let mut items: Vec<Acknowledgment> = Vec::new();
    let mut i: u32 = 0;
    assert(acknowledgments_view(items@) =~= Seq::<AcknowledgmentView>::empty());
    while i < count
        invariant
            i <= count,
            items@.len() == i,
            start == old(decoder)@,
            item == acknowledgment_decoder(),
            get_many(start, i as nat, item) == Ok::<(Seq<AcknowledgmentView>, Input), WireError>(
                (acknowledgments_view(items@), decoder@),
            ),
        decreases count - i,
    {
        let ghost before = acknowledgments_view(items@);
        let client: u64 = decoder.u64();
        let cookie: u64 = decoder.u64();
        let data = decoder.bytes();
        match decoder.finish() {
            Ok(_) => {},
            Err(error) => {
                proof {
                    lemma_get_many_error(start, (i + 1) as nat, count as nat, item);
                }
                return Err(error);
            },
        }
        let acknowledgment = Acknowledgment { client, cookie, data };
        items.push(acknowledgment);
        assert(acknowledgments_view(items@) =~= before.push(acknowledgment@));
        i = i + 1;
    }
    Ok(items)
}

fn decode_timeouts(decoder: &mut Decoder<'_>, count: u32) -> (r: Vec<Timeout>)
    ensures
        get_many(old(decoder)@, count as nat, timeout_decoder()) == Ok::<
            (Seq<Timeout>, Input),
            WireError,
        >((r@, final(decoder)@)),
{
    let ghost start = decoder@;
    let mut items: Vec<Timeout> = Vec::new();
    let mut i: u32 = 0;
    while i < count
        invariant
            i <= count,
            start == old(decoder)@,
            get_many(start, i as nat, timeout_decoder()) == Ok::<(Seq<Timeout>, Input), WireError>(
                (items@, decoder@),
            ),
        decreases count - i,
    {
        let client: u64 = decoder.u64();
        let cookie: u64 = decoder.u64();
        items.push(Timeout { client, cookie });
        i = i + 1;
    }
    items
}

pub fn decode_notify_result(data: &[u8], max_bytes: usize, max_entries: usize) -> (r: Result<
    (Vec<Acknowledgment>, Vec<Timeout>),
    WireError,
>)
    ensures
        r matches Ok(found) ==> notify_decoding(data@, max_bytes as nat, max_entries as nat)
            == Ok::<(Seq<AcknowledgmentView>, Seq<Timeout>), WireError>(
            (acknowledgments_view(found.0@), found.1@),
        ),
        r matches Err(error) ==> notify_decoding(data@, max_bytes as nat, max_entries as nat)
            == Err::<(Seq<AcknowledgmentView>, Seq<Timeout>), WireError>(error),
{
    let mut decoder = Decoder::new(data, max_bytes);
    let count: u32 = decoder.u32();
    decoder.finish()?;
    if count as usize > max_entries || count as u64 * 20 > decoder.remaining() as u64 {
        return Err(WireError::LimitExceeded);
    }
    let acknowledged = decode_acknowledgments(&mut decoder, count)?;
    let missing: u32 = decoder.u32();
    decoder.finish()?;
    if missing as usize > max_entries - count as usize || missing as u64 * 16
        > decoder.remaining() as u64 {
        return Err(WireError::LimitExceeded);
    }
    let timed_out = decode_timeouts(&mut decoder, missing);
    decoder.finish()?;
    if decoder.remaining() != 0 {
        return Err(WireError::Malformed);
    }
    Ok((acknowledged, timed_out))
}

// ---------------------------------------------------------------------------
// Watchers
// ---------------------------------------------------------------------------

/// The watcher that a payload of this version holds. Before the second version it had no address.
#[verifier::opaque]
pub open spec fn watcher_fields(version: u8, d: Input) -> Result<WatcherView, WireError> {
    let (kind, d1) = get_u8(d);
    let (client, d2) = get_i64(d1);
    let (cookie, d3) = get_u64(d2);
    let (timeout_seconds, d4) = get_u32(d3);
    let address = get_address(d4);
    let d5 = if version >= 2 {
        address->Ok_0.1
    } else {
        d4
    };
    if version < 1 || version > 2 || kind != ENTITY_CLIENT {
        Err(WireError::Malformed)
    } else if client < 0 || cookie == 0 {
        Err(WireError::Malformed)
    } else if version >= 2 && address is Err {
        Err(address->Err_0)
    } else if finished(d5) is Err {
        Err(finished(d5)->Err_0)
    } else if d5.rest.len() != 0 {
        Err(WireError::Malformed)
    } else {
        Ok(
            WatcherView {
                client: client as u64,
                cookie,
                timeout_seconds,
                address: if version >= 2 {
                    address_text(address->Ok_0.0)
                } else {
                    Seq::empty()
                },
            },
        )
    }
}

pub open spec fn watcher_decoder() -> spec_fn(Input) -> Result<(WatcherView, Input), WireError> {
    |d: Input|
        {
            let (version, payload, rest) = get_versioned(d, 2);
            if finished(rest) is Err {
                Err(finished(rest)->Err_0)
            } else {
                match watcher_fields(version, payload) {
                    Err(error) => Err(error),
                    Ok(watcher) => Ok((watcher, rest)),
                }
            }
        }
}

/// What `decode_watchers` yields.
pub open spec fn watchers_decoding(data: Seq<u8>, max_bytes: nat, max_watchers: nat) -> Result<
    Seq<WatcherView>,
    WireError,
> {
    let (version, payload, rest) = get_versioned(limited_input(data, max_bytes), 1);
    let (count, d1) = get_u32(payload);
    if finished(rest) is Err {
        Err(finished(rest)->Err_0)
    } else if version != 1 {
        Err(WireError::Malformed)
    } else if finished(d1) is Err {
        Err(finished(d1)->Err_0)
    } else if count > max_watchers || count * 17 > d1.rest.len() {
        Err(WireError::LimitExceeded)
    } else {
        match get_many(d1, count as nat, watcher_decoder()) {
            Err(error) => Err(error),
            Ok((watchers, d2)) => if finished(d2) is Err {
                Err(finished(d2)->Err_0)
            } else if d2.rest.len() != 0 {
                Err(WireError::Malformed)
            } else {
                Ok(watchers)
            },
        }
    }
}

fn decode_watcher(version: u8, item: &mut Decoder<'_>) -> (r: Result<WatcherInfo, WireError>)
    ensures
        r matches Ok(watcher) ==> watcher_fields(version, old(item)@) == Ok::<
            WatcherView,
            WireError,
        >(watcher@),
        r matches Err(error) ==> watcher_fields(version, old(item)@) == Err::<
            WatcherView,
            WireError,
        >(error),
{
    reveal(watcher_fields);
    let kind: u8 = item.u8();
    if version < 1 || version > 2 || kind != ENTITY_CLIENT {
        return Err(WireError::Malformed);
    }
    let client: i64 = item.i64();
    let cookie: u64 = item.u64();
    let timeout_seconds: u32 = item.u32();
    if client < 0 || cookie == 0 {
        return Err(WireError::Malformed);
    }
    let address = if version >= 2 {
        EntityAddr::decode(item)?.endpoint_text()
    } else {
        String::new()
    };
    item.finish()?;
    if item.remaining() != 0 {
        return Err(WireError::Malformed);
    }
    Ok(WatcherInfo { client: client as u64, cookie, timeout_seconds, address })
}

fn decode_watcher_list(decoder: &mut Decoder<'_>, count: u32) -> (r: Result<
    Vec<WatcherInfo>,
    WireError,
>)
    ensures
        r matches Ok(items) ==> get_many(old(decoder)@, count as nat, watcher_decoder()) == Ok::<
            (Seq<WatcherView>, Input),
            WireError,
        >((watchers_view(items@), final(decoder)@)),
        r matches Err(error) ==> get_many(old(decoder)@, count as nat, watcher_decoder())
            == Err::<(Seq<WatcherView>, Input), WireError>(error),
{
    let ghost start = decoder@;
    let ghost decode = watcher_decoder();
    let mut items: Vec<WatcherInfo> = Vec::new();
    let mut i: u32 = 0;
    assert(watchers_view(items@) =~= Seq::<WatcherView>::empty());
    while i < count
        invariant
            i <= count,
            start == old(decoder)@,
            decode == watcher_decoder(),
            get_many(start, i as nat, decode) == Ok::<(Seq<WatcherView>, Input), WireError>(
                (watchers_view(items@), decoder@),
            ),
        decreases count - i,
    {
        let ghost before = watchers_view(items@);
        proof {
            if get_many(start, (i + 1) as nat, decode) is Err {
                lemma_get_many_error(start, (i + 1) as nat, count as nat, decode);
            }
        }
        let (version, mut item) = decoder.versioned(2);
        decoder.finish()?;
        let watcher = decode_watcher(version, &mut item)?;
        items.push(watcher);
        assert(watchers_view(items@) =~= before.push(watcher@));
        i = i + 1;
    }
    Ok(items)
}

pub fn decode_watchers(data: &[u8], max_bytes: usize, max_watchers: usize) -> (r: Result<
    Vec<WatcherInfo>,
    WireError,
>)
    ensures
        r matches Ok(watchers) ==> watchers_decoding(data@, max_bytes as nat, max_watchers as nat)
            == Ok::<Seq<WatcherView>, WireError>(watchers_view(watchers@)),
        r matches Err(error) ==> watchers_decoding(data@, max_bytes as nat, max_watchers as nat)
            == Err::<Seq<WatcherView>, WireError>(error),
{
    let mut decoder = Decoder::new(data, max_bytes);
    let (version, mut payload) = decoder.versioned(1);
    decoder.finish()?;
    if version != 1 {
        return Err(WireError::Malformed);
    }
    let count: u32 = payload.u32();
    payload.finish()?;
    if count as usize > max_watchers || count as u64 * 17 > payload.remaining() as u64 {
        return Err(WireError::LimitExceeded);
    }
    let watchers = decode_watcher_list(&mut payload, count)?;
    payload.finish()?;
    if payload.remaining() != 0 {
        return Err(WireError::Malformed);
    }
    Ok(watchers)
}

// ---------------------------------------------------------------------------
// Views
// ---------------------------------------------------------------------------

/// What stands for a value of this type has its fields.
pub proof fn law_notification_has_its_fields(x: Notification)
    ensures
        x@.cookie == x.cookie,
        x@.version == x.version,
        x@.notify_id == x.notify_id,
        x@.opcode == x.opcode,
        x@.data == x.data@,
        x@.result == x.result,
        x@.notifier == x.notifier,
{
}

/// What stands for a value of this type has its fields.
pub proof fn law_acknowledgment_has_its_fields(x: Acknowledgment)
    ensures
        x@.client == x.client,
        x@.cookie == x.cookie,
        x@.data == x.data@,
{
}

/// What stands for a value of this type has its fields.
pub proof fn law_watcher_info_has_its_fields(x: WatcherInfo)
    ensures
        x@.client == x.client,
        x@.cookie == x.cookie,
        x@.timeout_seconds == x.timeout_seconds,
        x@.address == x.address@,
{
}

/// What stands for a list has what stands for each of its items, in order.
pub proof fn law_acknowledgments_view_keeps_order(items: Seq<Acknowledgment>, i: int)
    requires
        0 <= i < items.len(),
    ensures
        acknowledgments_view(items).len() == items.len(),
        acknowledgments_view(items)[i] == items[i]@,
{
}

/// What stands for a list has what stands for each of its items, in order.
pub proof fn law_watchers_view_keeps_order(items: Seq<WatcherInfo>, i: int)
    requires
        0 <= i < items.len(),
    ensures
        watchers_view(items).len() == items.len(),
        watchers_view(items)[i] == items[i]@,
{
}

} // verus!
