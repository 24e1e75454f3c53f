//! Payloads of the frames that set up and maintain a session.

use super::frame::{
    frame_error, frame_error_of, segments_view, tag_code, Frame, FrameError, FrameView, Limits,
    Segment, SegmentView, Tag, DEFAULT_ALIGNMENT,
};
use crate::protocol::address::{
    address_bytes, addresses_bytes, get_address, get_addresses, law_address_reads_back,
    law_addresses_read_back, AddressView, EntityAddr, EntityAddrVec,
};
use crate::wire::{
    bool_byte, concatenated, finished, get_i32, get_i64, get_many, get_raw, get_u32, get_u64,
    get_u8, input, law_many, law_raw, law_u32, le32, le64, prefixed, unsigned32, unsigned64,
    Decoder, Encoder, Input, WireError,
};
use vstd::prelude::*;

verus! {

broadcast use {crate::wire::group_integers, crate::wire::group_reads};

/// The flag of a connection whose messages may get lost with it.
pub const CONNECTION_FLAG_LOSSY: u64 = 1;

#[derive(Clone, Debug, PartialEq, Eq)]
pub struct Hello {
    pub entity_type: u8,
    pub peer_address: EntityAddr,
}

#[derive(Debug, PartialEq, Eq)]
pub struct ClientIdent {
    pub addresses: EntityAddrVec,
    pub target_address: EntityAddr,
    pub global_id: i64,
    pub global_sequence: u64,
    pub supported_features: u64,
    pub required_features: u64,
    pub flags: u64,
    pub cookie: u64,
}

#[derive(Clone, Debug, PartialEq, Eq)]
pub struct ServerIdent {
    pub addresses: EntityAddrVec,
    pub global_id: i64,
    pub global_sequence: u64,
    pub supported_features: u64,
    pub required_features: u64,
    pub flags: u64,
    pub cookie: u64,
}

#[derive(Clone, Copy, Debug, PartialEq, Eq, Structural)]
pub struct IdentMissingFeatures {
    pub features: u64,
}

#[derive(Clone, Debug, PartialEq, Eq)]
pub struct SessionReconnect {
    pub addresses: EntityAddrVec,
    pub client_cookie: u64,
    pub server_cookie: u64,
    pub global_sequence: u64,
    pub connect_sequence: u64,
    pub message_sequence: u64,
}

#[derive(Clone, Copy, Debug, PartialEq, Eq, Structural)]
pub struct SessionReset {
    pub full: bool,
}

#[derive(Clone, Copy, Debug, PartialEq, Eq, Structural)]
pub struct SessionRetry {
    pub connect_sequence: u64,
}

#[derive(Clone, Copy, Debug, PartialEq, Eq, Structural)]
pub struct SessionRetryGlobal {
    pub global_sequence: u64,
}

#[derive(Clone, Copy, Debug, PartialEq, Eq, Structural)]
pub struct SessionReconnectOk {
    pub message_sequence: u64,
}

#[derive(Clone, Copy, Debug, PartialEq, Eq, Structural)]
pub struct Timestamp {
    pub seconds: u32,
    pub nanoseconds: u32,
}

#[derive(Clone, Debug, PartialEq, Eq)]
pub struct AuthRequest {
    pub method: u32,
    pub preferred_modes: Vec<u32>,
    pub auth_payload: Vec<u8>,
}

#[derive(Clone, Debug, PartialEq, Eq)]
pub struct AuthBadMethod {
    pub method: u32,
    pub result: i32,
    pub allowed_methods: Vec<u32>,
    pub allowed_modes: Vec<u32>,
}

#[derive(Clone, Debug, PartialEq, Eq)]
pub struct AuthDone {
    pub global_id: u64,
    pub connection_mode: u32,
    pub auth_payload: Vec<u8>,
}

#[derive(Clone, Debug, PartialEq, Eq)]
pub enum Control {
    Hello(Hello),
    ClientIdent(ClientIdent),
    ServerIdent(ServerIdent),
    IdentMissingFeatures(IdentMissingFeatures),
    SessionReconnect(SessionReconnect),
    SessionReset(SessionReset),
    SessionRetry(SessionRetry),
    SessionRetryGlobal(SessionRetryGlobal),
    SessionReconnectOk(SessionReconnectOk),
    Wait,
    Keepalive2(Timestamp),
    Keepalive2Ack(Timestamp),
    Ack(u64),
    AuthRequest(AuthRequest),
    AuthBadMethod(AuthBadMethod),
    AuthReplyMore(Vec<u8>),
    AuthRequestMore(Vec<u8>),
    AuthDone(AuthDone),
    AuthSignature([u8; 32]),
    AuthPayload { tag: Tag, payload: Vec<u8> },
}

pub struct ClientIdentView {
    pub addresses: Seq<AddressView>,
    pub target_address: AddressView,
    pub global_id: i64,
    pub global_sequence: u64,
    pub supported_features: u64,
    pub required_features: u64,
    pub flags: u64,
    pub cookie: u64,
}

pub struct ServerIdentView {
    pub addresses: Seq<AddressView>,
    pub global_id: i64,
    pub global_sequence: u64,
    pub supported_features: u64,
    pub required_features: u64,
    pub flags: u64,
    pub cookie: u64,
}

pub struct SessionReconnectView {
    pub addresses: Seq<AddressView>,
    pub client_cookie: u64,
    pub server_cookie: u64,
    pub global_sequence: u64,
    pub connect_sequence: u64,
    pub message_sequence: u64,
}

/// The contents of a control payload.
pub enum ControlView {
    Hello(u8, AddressView),
    ClientIdent(ClientIdentView),
    ServerIdent(ServerIdentView),
    IdentMissingFeatures(IdentMissingFeatures),
    SessionReconnect(SessionReconnectView),
    SessionReset(SessionReset),
    SessionRetry(SessionRetry),
    SessionRetryGlobal(SessionRetryGlobal),
    SessionReconnectOk(SessionReconnectOk),
    Wait,
    Keepalive2(Timestamp),
    Keepalive2Ack(Timestamp),
    Ack(u64),
    AuthRequest(u32, Seq<u32>, Seq<u8>),
    AuthBadMethod(u32, i32, Seq<u32>, Seq<u32>),
    AuthReplyMore(Seq<u8>),
    AuthRequestMore(Seq<u8>),
    AuthDone(u64, u32, Seq<u8>),
    AuthSignature(Seq<u8>),
    AuthPayload(Tag, Seq<u8>),
}

impl View for ClientIdent {
    type V = ClientIdentView;

    open spec fn view(&self) -> ClientIdentView {
        ClientIdentView {
            addresses: self.addresses@,
            target_address: self.target_address@,
            global_id: self.global_id,
            global_sequence: self.global_sequence,
            supported_features: self.supported_features,
            required_features: self.required_features,
            flags: self.flags,
            cookie: self.cookie,
        }
    }
}

impl Clone for ClientIdent {
    fn clone(&self) -> (r: Self)
        ensures
            r@ == self@,
    {
        ClientIdent {
            addresses: self.addresses.clone(),
            target_address: self.target_address.clone(),
            global_id: self.global_id,
            global_sequence: self.global_sequence,
            supported_features: self.supported_features,
            required_features: self.required_features,
            flags: self.flags,
            cookie: self.cookie,
        }
    }
}

impl View for ServerIdent {
    type V = ServerIdentView;

    open spec fn view(&self) -> ServerIdentView {
        ServerIdentView {
            addresses: self.addresses@,
            global_id: self.global_id,
            global_sequence: self.global_sequence,
            supported_features: self.supported_features,
            required_features: self.required_features,
            flags: self.flags,
            cookie: self.cookie,
        }
    }
}

impl View for SessionReconnect {
    type V = SessionReconnectView;

    open spec fn view(&self) -> SessionReconnectView {
        SessionReconnectView {
            addresses: self.addresses@,
            client_cookie: self.client_cookie,
            server_cookie: self.server_cookie,
            global_sequence: self.global_sequence,
            connect_sequence: self.connect_sequence,
            message_sequence: self.message_sequence,
        }
    }
}

impl View for Control {
    type V = ControlView;

    open spec fn view(&self) -> ControlView {
        match self {
            Control::Hello(v) => ControlView::Hello(v.entity_type, v.peer_address@),
            Control::ClientIdent(v) => ControlView::ClientIdent(v@),
            Control::ServerIdent(v) => ControlView::ServerIdent(v@),
            Control::IdentMissingFeatures(v) => ControlView::IdentMissingFeatures(*v),
            Control::SessionReconnect(v) => ControlView::SessionReconnect(v@),
            Control::SessionReset(v) => ControlView::SessionReset(*v),
            Control::SessionRetry(v) => ControlView::SessionRetry(*v),
            Control::SessionRetryGlobal(v) => ControlView::SessionRetryGlobal(*v),
            Control::SessionReconnectOk(v) => ControlView::SessionReconnectOk(*v),
            Control::Wait => ControlView::Wait,
            Control::Keepalive2(v) => ControlView::Keepalive2(*v),
            Control::Keepalive2Ack(v) => ControlView::Keepalive2Ack(*v),
            Control::Ack(v) => ControlView::Ack(*v),
            Control::AuthRequest(v) => ControlView::AuthRequest(
                v.method,
                v.preferred_modes@,
                v.auth_payload@,
            ),
            Control::AuthBadMethod(v) => ControlView::AuthBadMethod(
                v.method,
                v.result,
                v.allowed_methods@,
                v.allowed_modes@,
            ),
            Control::AuthReplyMore(v) => ControlView::AuthReplyMore(v@),
            Control::AuthRequestMore(v) => ControlView::AuthRequestMore(v@),
            Control::AuthDone(v) => ControlView::AuthDone(
                v.global_id,
                v.connection_mode,
                v.auth_payload@,
            ),
            Control::AuthSignature(v) => ControlView::AuthSignature(v@),
            Control::AuthPayload { tag, payload } => ControlView::AuthPayload(*tag, payload@),
        }
    }
}

/// The tag of the frame that carries a payload. A raw payload must have a tag of authentication.
pub open spec fn control_tag(c: ControlView) -> Result<Tag, FrameError> {
    match c {
        ControlView::Hello(..) => Ok(Tag::Hello),
        ControlView::ClientIdent(_) => Ok(Tag::ClientIdent),
        ControlView::ServerIdent(_) => Ok(Tag::ServerIdent),
        ControlView::IdentMissingFeatures(_) => Ok(Tag::IdentMissingFeatures),
        ControlView::SessionReconnect(_) => Ok(Tag::SessionReconnect),
        ControlView::SessionReset(_) => Ok(Tag::SessionReset),
        ControlView::SessionRetry(_) => Ok(Tag::SessionRetry),
        ControlView::SessionRetryGlobal(_) => Ok(Tag::SessionRetryGlobal),
        ControlView::SessionReconnectOk(_) => Ok(Tag::SessionReconnectOk),
        ControlView::Wait => Ok(Tag::Wait),
        ControlView::Keepalive2(_) => Ok(Tag::Keepalive2),
        ControlView::Keepalive2Ack(_) => Ok(Tag::Keepalive2Ack),
        ControlView::Ack(_) => Ok(Tag::Ack),
        ControlView::AuthRequest(..) => Ok(Tag::AuthRequest),
        ControlView::AuthBadMethod(..) => Ok(Tag::AuthBadMethod),
        ControlView::AuthReplyMore(_) => Ok(Tag::AuthReplyMore),
        ControlView::AuthRequestMore(_) => Ok(Tag::AuthRequestMore),
        ControlView::AuthDone(..) => Ok(Tag::AuthDone),
        ControlView::AuthSignature(_) => Ok(Tag::AuthSignature),
        ControlView::AuthPayload(tag, _) => if tag_code(Tag::AuthRequest) <= tag_code(tag)
            <= tag_code(Tag::AuthSignature) {
            Ok(tag)
        } else {
            Err(FrameError::Malformed)
        },
    }
}

/// Whether lists and authentication payloads are within their limits.
pub open spec fn control_within(c: ControlView, limits: Limits) -> bool {
    match c {
        ControlView::ClientIdent(v) => v.addresses.len() <= limits.max_addresses,
        ControlView::ServerIdent(v) => v.addresses.len() <= limits.max_addresses,
        ControlView::SessionReconnect(v) => v.addresses.len() <= limits.max_addresses,
        ControlView::AuthRequest(_, modes, payload) => payload.len() <= limits.max_auth_bytes && 4
            * modes.len() <= limits.max_auth_bytes,
        ControlView::AuthBadMethod(_, _, methods, modes) => 4 * methods.len()
            <= limits.max_auth_bytes && 4 * modes.len() <= limits.max_auth_bytes,
        ControlView::AuthReplyMore(payload) => payload.len() <= limits.max_auth_bytes,
        ControlView::AuthRequestMore(payload) => payload.len() <= limits.max_auth_bytes,
        ControlView::AuthDone(_, _, payload) => payload.len() <= limits.max_auth_bytes,
        ControlView::AuthPayload(_, payload) => payload.len() <= limits.max_auth_bytes,
        _ => true,
    }
}

pub open spec fn u32_encoder() -> spec_fn(u32) -> Seq<u8> {
    |x: u32| le32(x)
}

/// A list of integers behind their number.
pub open spec fn u32s_bytes(values: Seq<u32>) -> Seq<u8> {
    le32(values.len() as u32) + concatenated(values, u32_encoder())
}

/// A payload on the wire.
pub open spec fn control_bytes(c: ControlView) -> Seq<u8> {
    match c {
        ControlView::Hello(entity_type, address) => seq![entity_type] + address_bytes(address),
        ControlView::ClientIdent(v) => addresses_bytes(v.addresses) + (address_bytes(
            v.target_address,
        ) + (le64(unsigned64(v.global_id)) + (le64(v.global_sequence) + (le64(
            v.supported_features,
        ) + (le64(v.required_features) + (le64(v.flags) + le64(v.cookie))))))),
        ControlView::ServerIdent(v) => addresses_bytes(v.addresses) + (le64(
            unsigned64(v.global_id),
        ) + (le64(v.global_sequence) + (le64(v.supported_features) + (le64(v.required_features) + (
        le64(v.flags) + le64(v.cookie)))))),
        ControlView::IdentMissingFeatures(v) => le64(v.features),
        ControlView::SessionReconnect(v) => addresses_bytes(v.addresses) + (le64(v.client_cookie)
            + (le64(v.server_cookie) + (le64(v.global_sequence) + (le64(v.connect_sequence)
            + le64(v.message_sequence))))),
        ControlView::SessionReset(v) => bool_byte(v.full),
        ControlView::SessionRetry(v) => le64(v.connect_sequence),
        ControlView::SessionRetryGlobal(v) => le64(v.global_sequence),
        ControlView::SessionReconnectOk(v) => le64(v.message_sequence),
        ControlView::Wait => Seq::empty(),
        ControlView::Keepalive2(v) => le32(v.seconds) + le32(v.nanoseconds),
        ControlView::Keepalive2Ack(v) => le32(v.seconds) + le32(v.nanoseconds),
        ControlView::Ack(sequence) => le64(sequence),
        ControlView::AuthRequest(method, modes, payload) => le32(method) + (u32s_bytes(modes)
            + prefixed(payload)),
        ControlView::AuthBadMethod(method, result, methods, modes) => le32(method) + (le32(
            unsigned32(result),
        ) + (u32s_bytes(methods) + u32s_bytes(modes))),
        ControlView::AuthReplyMore(payload) => prefixed(payload),
        ControlView::AuthRequestMore(payload) => prefixed(payload),
        ControlView::AuthDone(global_id, mode, payload) => le64(global_id) + (le32(mode)
            + prefixed(payload)),
        ControlView::AuthSignature(signature) => signature,
        ControlView::AuthPayload(_, payload) => payload,
    }
}

/// The frame that carries a payload.
pub open spec fn control_encoding(c: ControlView, limits: Limits) -> Result<
    FrameView,
    FrameError,
> {
    match control_tag(c) {
        Err(error) => Err(error),
        Ok(tag) => if !control_within(c, limits) || control_bytes(c).len()
            > limits.max_segment_bytes {
            Err(FrameError::LimitExceeded)
        } else {
            Ok(
                FrameView {
                    tag,
                    segments: seq![
                        SegmentView { alignment: DEFAULT_ALIGNMENT, data: control_bytes(c) },
                    ],
                },
            )
        },
    }
}

fn check_addresses(addresses: &EntityAddrVec, limits: Limits) -> (r: Result<(), FrameError>)
    ensures
        r is Ok <==> addresses@.len() <= limits.max_addresses,
        r matches Err(error) ==> error == FrameError::LimitExceeded,
{
    if addresses.0.len() as u64 > limits.max_addresses as u64 {
        return Err(FrameError::LimitExceeded);
    }
    Ok(())
}

fn check_auth_bytes(payload: &Vec<u8>, limits: Limits) -> (r: Result<(), FrameError>)
    ensures
        r is Ok <==> payload@.len() <= limits.max_auth_bytes,
        r matches Err(error) ==> error == FrameError::LimitExceeded,
{
    if payload.len() as u64 > limits.max_auth_bytes as u64 {
        return Err(FrameError::LimitExceeded);
    }
    Ok(())
}

fn encode_u32_slice(encoder: &mut Encoder, values: &Vec<u32>, max_bytes: u32) -> (r: Result<
    (),
    FrameError,
>)
    requires
        old(encoder).wf(),
    ensures
        final(encoder).wf(),
        final(encoder).limit() == old(encoder).limit(),
        r is Ok <==> 4 * values@.len() <= max_bytes,
        r matches Err(error) ==> error == FrameError::LimitExceeded,
        r is Ok ==> final(encoder)@ == old(encoder)@ + u32s_bytes(values@),
{
    if values.len() as u64 > (max_bytes / 4) as u64 {
        return Err(FrameError::LimitExceeded);
    }
    encoder.u32(values.len() as u32);
    let ghost start = encoder@;
    let ghost all = values@;
    let mut i: usize = 0;
    assert(encoder@ =~= start + concatenated(all.take(0), u32_encoder()));
    while i < values.len()
        invariant
            i <= values@.len(),
            all == values@,
            encoder.wf(),
            encoder.limit() == old(encoder).limit(),
            encoder@ == start + concatenated(all.take(i as int), u32_encoder()),
        decreases values@.len() - i,
    {
        encoder.u32(values[i]);
        assert(all.take(i + 1).drop_last() =~= all.take(i as int));
        assert(encoder@ =~= start + concatenated(all.take(i + 1), u32_encoder()));
        i = i + 1;
    }
    assert(all.take(i as int) =~= all);
    assert(encoder@ =~= old(encoder)@ + u32s_bytes(values@));
    Ok(())
}

impl Control {
    fn tag(&self) -> (r: Result<Tag, FrameError>)
        ensures
            r == control_tag(self@),
    {
        Ok(
            match self {
                Control::Hello(_) => Tag::Hello,
                Control::ClientIdent(_) => Tag::ClientIdent,
                Control::ServerIdent(_) => Tag::ServerIdent,
                Control::IdentMissingFeatures(_) => Tag::IdentMissingFeatures,
                Control::SessionReconnect(_) => Tag::SessionReconnect,
                Control::SessionReset(_) => Tag::SessionReset,
                Control::SessionRetry(_) => Tag::SessionRetry,
                Control::SessionRetryGlobal(_) => Tag::SessionRetryGlobal,
                Control::SessionReconnectOk(_) => Tag::SessionReconnectOk,
                Control::Wait => Tag::Wait,
                Control::Keepalive2(_) => Tag::Keepalive2,
                Control::Keepalive2Ack(_) => Tag::Keepalive2Ack,
                Control::Ack(_) => Tag::Ack,
                Control::AuthRequest(_) => Tag::AuthRequest,
                Control::AuthBadMethod(_) => Tag::AuthBadMethod,
                Control::AuthReplyMore(_) => Tag::AuthReplyMore,
                Control::AuthRequestMore(_) => Tag::AuthRequestMore,
                Control::AuthDone(_) => Tag::AuthDone,
                Control::AuthSignature(_) => Tag::AuthSignature,
                Control::AuthPayload { tag, .. } => {
                    if tag.code() < Tag::AuthRequest.code() || tag.code()
                        > Tag::AuthSignature.code() {
                        return Err(FrameError::Malformed);
                    }
                    *tag
                },
            },
        )
    }

    fn encode_payload(&self, encoder: &mut Encoder, limits: Limits) -> (r: Result<(), FrameError>)
        requires
            old(encoder).wf(),
            old(encoder)@ == Seq::<u8>::empty(),
        ensures
            final(encoder).wf(),
            final(encoder).limit() == old(encoder).limit(),
            r is Ok <==> control_within(self@, limits),
            r matches Err(error) ==> error == FrameError::LimitExceeded,
            r is Ok ==> final(encoder)@ == control_bytes(self@),
    {
        match self {
            Control::Hello(value) => {
                encoder.u8(value.entity_type);
                value.peer_address.encode(encoder);
            },
            Control::ClientIdent(value) => {
                check_addresses(&value.addresses, limits)?;
                value.addresses.encode(encoder);
                value.target_address.encode(encoder);
                encoder.i64(value.global_id);
                encoder.u64(value.global_sequence);
                encoder.u64(value.supported_features);
                encoder.u64(value.required_features);
                encoder.u64(value.flags);
                encoder.u64(value.cookie);
            },
            Control::ServerIdent(value) => {
                check_addresses(&value.addresses, limits)?;
                value.addresses.encode(encoder);
                encoder.i64(value.global_id);
                encoder.u64(value.global_sequence);
                encoder.u64(value.supported_features);
                encoder.u64(value.required_features);
                encoder.u64(value.flags);
                encoder.u64(value.cookie);
            },
            Control::IdentMissingFeatures(value) => encoder.u64(value.features),
            Control::SessionReconnect(value) => {
                check_addresses(&value.addresses, limits)?;
                value.addresses.encode(encoder);
                encoder.u64(value.client_cookie);
                encoder.u64(value.server_cookie);
                encoder.u64(value.global_sequence);
                encoder.u64(value.connect_sequence);
                encoder.u64(value.message_sequence);
            },
            Control::SessionReset(value) => encoder.bool(value.full),
            Control::SessionRetry(value) => encoder.u64(value.connect_sequence),
            Control::SessionRetryGlobal(value) => encoder.u64(value.global_sequence),
            Control::SessionReconnectOk(value) => encoder.u64(value.message_sequence),
            Control::Wait => {},
            Control::Keepalive2(value) => {
                encoder.u32(value.seconds);
                encoder.u32(value.nanoseconds);
            },
            Control::Keepalive2Ack(value) => {
                encoder.u32(value.seconds);
                encoder.u32(value.nanoseconds);
            },
            Control::Ack(sequence) => encoder.u64(*sequence),
            Control::AuthRequest(value) => {
                check_auth_bytes(&value.auth_payload, limits)?;
                encoder.u32(value.method);
                encode_u32_slice(encoder, &value.preferred_modes, limits.max_auth_bytes)?;
                encoder.bytes(value.auth_payload.as_slice());
            },
            Control::AuthBadMethod(value) => {
                encoder.u32(value.method);
                encoder.i32(value.result);
                encode_u32_slice(encoder, &value.allowed_methods, limits.max_auth_bytes)?;
                encode_u32_slice(encoder, &value.allowed_modes, limits.max_auth_bytes)?;
            },
            Control::AuthReplyMore(payload) => {
                check_auth_bytes(payload, limits)?;
                encoder.bytes(payload.as_slice());
            },
            Control::AuthRequestMore(payload) => {
                check_auth_bytes(payload, limits)?;
                encoder.bytes(payload.as_slice());
            },
            Control::AuthDone(value) => {
                check_auth_bytes(&value.auth_payload, limits)?;
                encoder.u64(value.global_id);
                encoder.u32(value.connection_mode);
                encoder.bytes(value.auth_payload.as_slice());
            },
            Control::AuthSignature(signature) => encoder.raw(signature.as_slice()),
            Control::AuthPayload { payload, .. } => {
                check_auth_bytes(payload, limits)?;
                encoder.raw(payload.as_slice());
            },
        }
        assert(encoder@ =~= control_bytes(self@));
        Ok(())
    }

    /// The frame that carries this payload.
    pub fn encode(self, limits: Limits) -> (r: Result<Frame, FrameError>)
        ensures
            r matches Ok(frame) ==> control_encoding(self@, limits) == Ok::<FrameView, FrameError>(
                frame@,
            ),
            r matches Err(error) ==> control_encoding(self@, limits) == Err::<
                FrameView,
                FrameError,
            >(error),
    {
        let tag = self.tag()?;
        let mut encoder = Encoder::new(limits.max_segment_bytes as usize);
        self.encode_payload(&mut encoder, limits)?;
        let data = match encoder.finish() {
            Ok(data) => data,
            Err(error) => {
                return Err(frame_error(error));
            },
        };
        let mut segments: Vec<Segment> = Vec::new();
        segments.push(Segment { alignment: DEFAULT_ALIGNMENT, data });
        assert(segments_view(segments@) =~= seq![
            SegmentView { alignment: DEFAULT_ALIGNMENT, data: control_bytes(self@) },
        ]);
        Ok(Frame { tag, segments })
    }
}

// ---------------------------------------------------------------------------
// Decoding
// ---------------------------------------------------------------------------

pub open spec fn u32_decoder() -> spec_fn(Input) -> Result<(u32, Input), FrameError> {
    |d: Input| Ok(get_u32(d))
}

/// A list of integers of at most `max_bytes` bytes.
pub open spec fn get_u32s(d: Input, max_bytes: u32) -> Result<(Seq<u32>, Input), FrameError> {
    let (count, d1) = get_u32(d);
    if 4 * count > max_bytes {
        Err(FrameError::LimitExceeded)
    } else if 4 * count > d1.rest.len() {
        Err(FrameError::Malformed)
    } else {
        get_many(d1, count as nat, u32_decoder())
    }
}

/// An authentication payload of at most `max_bytes` bytes.
pub open spec fn get_auth_bytes(d: Input, max_bytes: u32) -> Result<(Seq<u8>, Input), FrameError> {
    let (length, d1) = get_u32(d);
    if length > max_bytes {
        Err(FrameError::LimitExceeded)
    } else if length > d1.rest.len() {
        Err(FrameError::Malformed)
    } else {
        Ok(get_raw(d1, length as nat))
    }
}

/// A time with less than a second of nanoseconds.
pub open spec fn get_timestamp(d: Input) -> Result<(Timestamp, Input), FrameError> {
    let (seconds, d1) = get_u32(d);
    let (nanoseconds, d2) = get_u32(d1);
    if finished(d2) is Err {
        Err(frame_error_of(finished(d2)->Err_0))
    } else if nanoseconds >= 1_000_000_000 {
        Err(FrameError::Malformed)
    } else {
        Ok((Timestamp { seconds, nanoseconds }, d2))
    }
}

pub open spec fn get_client_ident(d: Input, limits: Limits) -> Result<
    (ControlView, Input),
    FrameError,
> {
    match get_addresses(d, limits.max_addresses) {
        Err(error) => Err(frame_error_of(error)),
        Ok((addresses, d1)) => match get_address(d1) {
            Err(error) => Err(frame_error_of(error)),
            Ok((target_address, d2)) => {
                let (global_id, d3) = get_i64(d2);
                let (global_sequence, d4) = get_u64(d3);
                let (supported_features, d5) = get_u64(d4);
                let (required_features, d6) = get_u64(d5);
                let (flags, d7) = get_u64(d6);
                let (cookie, d8) = get_u64(d7);
                Ok(
                    (
                        ControlView::ClientIdent(
                            ClientIdentView {
                                addresses,
                                target_address,
                                global_id,
                                global_sequence,
                                supported_features,
                                required_features,
                                flags,
                                cookie,
                            },
                        ),
                        d8,
                    ),
                )
            },
        },
    }
}

pub open spec fn get_server_ident(d: Input, limits: Limits) -> Result<
    (ControlView, Input),
    FrameError,
> {
    match get_addresses(d, limits.max_addresses) {
        Err(error) => Err(frame_error_of(error)),
        Ok((addresses, d2)) => {
            let (global_id, d3) = get_i64(d2);
            let (global_sequence, d4) = get_u64(d3);
            let (supported_features, d5) = get_u64(d4);
            let (required_features, d6) = get_u64(d5);
            let (flags, d7) = get_u64(d6);
            let (cookie, d8) = get_u64(d7);
            Ok(
                (
                    ControlView::ServerIdent(
                        ServerIdentView {
                            addresses,
                            global_id,
                            global_sequence,
                            supported_features,
                            required_features,
                            flags,
                            cookie,
                        },
                    ),
                    d8,
                ),
            )
        },
    }
}

pub open spec fn get_reconnect(d: Input, limits: Limits) -> Result<
    (ControlView, Input),
    FrameError,
> {
    match get_addresses(d, limits.max_addresses) {
        Err(error) => Err(frame_error_of(error)),
        Ok((addresses, d1)) => {
            let (client_cookie, d2) = get_u64(d1);
            let (server_cookie, d3) = get_u64(d2);
            let (global_sequence, d4) = get_u64(d3);
            let (connect_sequence, d5) = get_u64(d4);
            let (message_sequence, d6) = get_u64(d5);
            Ok(
                (
                    ControlView::SessionReconnect(
                        SessionReconnectView {
                            addresses,
                            client_cookie,
                            server_cookie,
                            global_sequence,
                            connect_sequence,
                            message_sequence,
                        },
                    ),
                    d6,
                ),
            )
        },
    }
}

pub open spec fn get_auth_request(d: Input, limits: Limits) -> Result<
    (ControlView, Input),
    FrameError,
> {
    let (method, d1) = get_u32(d);
    match get_u32s(d1, limits.max_auth_bytes) {
        Err(error) => Err(error),
        Ok((modes, d2)) => match get_auth_bytes(d2, limits.max_auth_bytes) {
            Err(error) => Err(error),
            Ok((payload, d3)) => Ok((ControlView::AuthRequest(method, modes, payload), d3)),
        },
    }
}

pub open spec fn get_auth_bad_method(d: Input, limits: Limits) -> Result<
    (ControlView, Input),
    FrameError,
> {
    let (method, d1) = get_u32(d);
    let (result, d2) = get_i32(d1);
    match get_u32s(d2, limits.max_auth_bytes) {
        Err(error) => Err(error),
        Ok((methods, d3)) => match get_u32s(d3, limits.max_auth_bytes) {
            Err(error) => Err(error),
            Ok((modes, d4)) => Ok(
                (ControlView::AuthBadMethod(method, result, methods, modes), d4),
            ),
        },
    }
}

pub open spec fn get_auth_done(d: Input, limits: Limits) -> Result<
    (ControlView, Input),
    FrameError,
> {
    let (global_id, d1) = get_u64(d);
    let (mode, d2) = get_u32(d1);
    match get_auth_bytes(d2, limits.max_auth_bytes) {
        Err(error) => Err(error),
        Ok((payload, d3)) => Ok((ControlView::AuthDone(global_id, mode, payload), d3)),
    }
}

/// The payload that a frame with `tag` carries.
pub open spec fn get_control(tag: Tag, d: Input, limits: Limits) -> Result<
    (ControlView, Input),
    FrameError,
> {
    match tag {
        Tag::Hello => {
            let (entity_type, d1) = get_u8(d);
            match get_address(d1) {
                Err(error) => Err(frame_error_of(error)),
                Ok((address, d2)) => Ok((ControlView::Hello(entity_type, address), d2)),
            }
        },
        Tag::ClientIdent => get_client_ident(d, limits),
        Tag::ServerIdent => get_server_ident(d, limits),
        Tag::IdentMissingFeatures => {
            let (features, d1) = get_u64(d);
            Ok((ControlView::IdentMissingFeatures(IdentMissingFeatures { features }), d1))
        },
        Tag::SessionReconnect => get_reconnect(d, limits),
        Tag::SessionReset => {
            let (full, d1) = get_u8(d);
            if full > 1 {
                Err(FrameError::Malformed)
            } else {
                Ok((ControlView::SessionReset(SessionReset { full: full == 1 }), d1))
            }
        },
        Tag::SessionRetry => {
            let (connect_sequence, d1) = get_u64(d);
            Ok((ControlView::SessionRetry(SessionRetry { connect_sequence }), d1))
        },
        Tag::SessionRetryGlobal => {
            let (global_sequence, d1) = get_u64(d);
            Ok((ControlView::SessionRetryGlobal(SessionRetryGlobal { global_sequence }), d1))
        },
        Tag::SessionReconnectOk => {
            let (message_sequence, d1) = get_u64(d);
            Ok((ControlView::SessionReconnectOk(SessionReconnectOk { message_sequence }), d1))
        },
        Tag::Wait => Ok((ControlView::Wait, d)),
        Tag::Keepalive2 => match get_timestamp(d) {
            Err(error) => Err(error),
            Ok((time, d1)) => Ok((ControlView::Keepalive2(time), d1)),
        },
        Tag::Keepalive2Ack => match get_timestamp(d) {
            Err(error) => Err(error),
            Ok((time, d1)) => Ok((ControlView::Keepalive2Ack(time), d1)),
        },
        Tag::Ack => {
            let (sequence, d1) = get_u64(d);
            Ok((ControlView::Ack(sequence), d1))
        },
        Tag::AuthRequest => get_auth_request(d, limits),
        Tag::AuthBadMethod => get_auth_bad_method(d, limits),
        Tag::AuthReplyMore => match get_auth_bytes(d, limits.max_auth_bytes) {
            Err(error) => Err(error),
            Ok((payload, d1)) => Ok((ControlView::AuthReplyMore(payload), d1)),
        },
        Tag::AuthRequestMore => match get_auth_bytes(d, limits.max_auth_bytes) {
            Err(error) => Err(error),
            Ok((payload, d1)) => Ok((ControlView::AuthRequestMore(payload), d1)),
        },
        Tag::AuthDone => get_auth_done(d, limits),
        Tag::AuthSignature => {
            let (signature, d1) = get_raw(d, 32);
            if signature.len() != 32 {
                Err(FrameError::Malformed)
            } else {
                Ok((ControlView::AuthSignature(signature), d1))
            }
        },
        Tag::Message => Err(FrameError::Malformed),
        Tag::CompressionRequest => Err(FrameError::Malformed),
        Tag::CompressionDone => Err(FrameError::Malformed),
    }
}

/// The control payload of a frame.
pub open spec fn control_decoding(frame: FrameView, limits: Limits) -> Result<
    ControlView,
    FrameError,
> {
    if frame.tag == Tag::CompressionRequest || frame.tag == Tag::CompressionDone {
        Err(FrameError::UnsupportedPayload)
    } else if frame.tag == Tag::Message || frame.segments.len() != 1 {
        Err(FrameError::Malformed)
    } else if frame.segments[0].alignment != DEFAULT_ALIGNMENT {
        Err(FrameError::Malformed)
    } else if frame.segments[0].data.len() > limits.max_segment_bytes {
        Err(FrameError::LimitExceeded)
    } else {
        match get_control(frame.tag, input(frame.segments[0].data), limits) {
            Err(error) => Err(error),
            Ok((control, d)) => if finished(d) is Err {
                Err(frame_error_of(finished(d)->Err_0))
            } else if d.rest.len() != 0 {
                Err(FrameError::Malformed)
            } else {
                Ok(control)
            },
        }
    }
}

fn decode_u32_slice(decoder: &mut Decoder<'_>, max_bytes: u32) -> (r: Result<
    Vec<u32>,
    FrameError,
>)
    ensures
        r matches Ok(values) ==> get_u32s(old(decoder)@, max_bytes) == Ok::<
            (Seq<u32>, Input),
            FrameError,
        >((values@, final(decoder)@)),
        r matches Err(error) ==> get_u32s(old(decoder)@, max_bytes) == Err::<
            (Seq<u32>, Input),
            FrameError,
        >(error),
{
    let count: u32 = decoder.u32();
    if count > max_bytes / 4 {
        return Err(FrameError::LimitExceeded);
    }
    if count as usize > decoder.remaining() / 4 {
        return Err(FrameError::Malformed);
    }
    let ghost start = decoder@;
    let ghost item = u32_decoder();
    let mut values: Vec<u32> = Vec::new();
    let mut i: u32 = 0;
    assert(values@ =~= Seq::<u32>::empty());
    while i < count
        invariant
            i <= count,
            item == u32_decoder(),
            get_many(start, i as nat, item) == Ok::<(Seq<u32>, Input), FrameError>(
                (values@, decoder@),
            ),
        decreases count - i,
    {
        values.push(decoder.u32());
        i = i + 1;
    }
    Ok(values)
}

fn decode_auth_bytes(decoder: &mut Decoder<'_>, limits: Limits) -> (r: Result<Vec<u8>, FrameError>)
    ensures
        r matches Ok(payload) ==> get_auth_bytes(old(decoder)@, limits.max_auth_bytes) == Ok::<
            (Seq<u8>, Input),
            FrameError,
        >((payload@, final(decoder)@)),
        r matches Err(error) ==> get_auth_bytes(old(decoder)@, limits.max_auth_bytes) == Err::<
            (Seq<u8>, Input),
            FrameError,
        >(error),
{
    let length: u32 = decoder.u32();
    if length > limits.max_auth_bytes {
        return Err(FrameError::LimitExceeded);
    }
    if length as usize > decoder.remaining() {
        return Err(FrameError::Malformed);
    }
    Ok(decoder.raw(length as usize))
}

fn decode_timestamp(decoder: &mut Decoder<'_>) -> (r: Result<Timestamp, FrameError>)
    ensures
        r matches Ok(time) ==> get_timestamp(old(decoder)@) == Ok::<(Timestamp, Input), FrameError>(
            (time, final(decoder)@),
        ),
        r matches Err(error) ==> get_timestamp(old(decoder)@) == Err::<
            (Timestamp, Input),
            FrameError,
        >(error),
{
    let seconds: u32 = decoder.u32();
    let nanoseconds: u32 = decoder.u32();
    match decoder.finish() {
        Ok(_) => {},
        Err(error) => {
            return Err(frame_error(error));
        },
    }
    if nanoseconds >= 1_000_000_000 {
        return Err(FrameError::Malformed);
    }
    Ok(Timestamp { seconds, nanoseconds })
}

fn decode_address(decoder: &mut Decoder<'_>) -> (r: Result<EntityAddr, FrameError>)
    ensures
        r matches Ok(address) ==> get_address(old(decoder)@) == Ok::<
            (AddressView, Input),
            WireError,
        >((address@, final(decoder)@)),
        r matches Err(error) ==> get_address(old(decoder)@) matches Err(cause) && error
            == frame_error_of(cause),
{
    match EntityAddr::decode(decoder) {
        Ok(address) => Ok(address),
        Err(error) => Err(frame_error(error)),
    }
}

fn decode_addresses(decoder: &mut Decoder<'_>, limits: Limits) -> (r: Result<
    EntityAddrVec,
    FrameError,
>)
    ensures
        r matches Ok(addresses) ==> get_addresses(old(decoder)@, limits.max_addresses) == Ok::<
            (Seq<AddressView>, Input),
            WireError,
        >((addresses@, final(decoder)@)),
        r matches Err(error) ==> get_addresses(old(decoder)@, limits.max_addresses) matches Err(
            cause,
        ) && error == frame_error_of(cause),
{
    match EntityAddrVec::decode(decoder, limits.max_addresses) {
        Ok(addresses) => Ok(addresses),
        Err(error) => Err(frame_error(error)),
    }
}

fn decode_signature(decoder: &mut Decoder<'_>) -> (r: Result<[u8; 32], FrameError>)
    ensures
        r matches Ok(signature) ==> get_raw(old(decoder)@, 32) == (signature@, final(decoder)@)
            && signature@.len() == 32,
        r matches Err(error) ==> error == FrameError::Malformed && get_raw(
            old(decoder)@,
            32,
        ).0.len() != 32,
{
    let bytes = decoder.raw(32);
    if bytes.len() != 32 {
        return Err(FrameError::Malformed);
    }
    let mut signature: [u8; 32] = [0u8; 32];
    let mut i: usize = 0;
    while i < 32
        invariant
            i <= 32,
            bytes@.len() == 32,
            signature@.len() == 32,
            forall|k: int| 0 <= k < i ==> signature@[k] == bytes@[k],
        decreases 32 - i,
    {
        signature[i] = bytes[i];
        i = i + 1;
    }
    assert(signature@ =~= bytes@);
    Ok(signature)
}

fn decode_client_ident(decoder: &mut Decoder<'_>, limits: Limits) -> (r: Result<
    Control,
    FrameError,
>)
    ensures
        r matches Ok(control) ==> get_client_ident(old(decoder)@, limits) == Ok::<
            (ControlView, Input),
            FrameError,
        >((control@, final(decoder)@)),
        r matches Err(error) ==> get_client_ident(old(decoder)@, limits) == Err::<
            (ControlView, Input),
            FrameError,
        >(error),
{
    let addresses = decode_addresses(decoder, limits)?;
    let target_address = decode_address(decoder)?;
    let global_id: i64 = decoder.i64();
    let global_sequence: u64 = decoder.u64();
    let supported_features: u64 = decoder.u64();
    let required_features: u64 = decoder.u64();
    let flags: u64 = decoder.u64();
    let cookie: u64 = decoder.u64();
    Ok(
        Control::ClientIdent(
            ClientIdent {
                addresses,
                target_address,
                global_id,
                global_sequence,
                supported_features,
                required_features,
                flags,
                cookie,
            },
        ),
    )
}

fn decode_server_ident(decoder: &mut Decoder<'_>, limits: Limits) -> (r: Result<
    Control,
    FrameError,
>)
    ensures
        r matches Ok(control) ==> get_server_ident(old(decoder)@, limits) == Ok::<
            (ControlView, Input),
            FrameError,
        >((control@, final(decoder)@)),
        r matches Err(error) ==> get_server_ident(old(decoder)@, limits) == Err::<
            (ControlView, Input),
            FrameError,
        >(error),
{
    let addresses = decode_addresses(decoder, limits)?;
    let global_id: i64 = decoder.i64();
    let global_sequence: u64 = decoder.u64();
    let supported_features: u64 = decoder.u64();
    let required_features: u64 = decoder.u64();
    let flags: u64 = decoder.u64();
    let cookie: u64 = decoder.u64();
    Ok(
        Control::ServerIdent(
            ServerIdent {
                addresses,
                global_id,
                global_sequence,
                supported_features,
                required_features,
                flags,
                cookie,
            },
        ),
    )
}

fn decode_reconnect(decoder: &mut Decoder<'_>, limits: Limits) -> (r: Result<Control, FrameError>)
    ensures
        r matches Ok(control) ==> get_reconnect(old(decoder)@, limits) == Ok::<
            (ControlView, Input),
            FrameError,
        >((control@, final(decoder)@)),
        r matches Err(error) ==> get_reconnect(old(decoder)@, limits) == Err::<
            (ControlView, Input),
            FrameError,
        >(error),
{
    let addresses = decode_addresses(decoder, limits)?;
    let client_cookie: u64 = decoder.u64();
    let server_cookie: u64 = decoder.u64();
    let global_sequence: u64 = decoder.u64();
    let connect_sequence: u64 = decoder.u64();
    let message_sequence: u64 = decoder.u64();
    Ok(
        Control::SessionReconnect(
            SessionReconnect {
                addresses,
                client_cookie,
                server_cookie,
                global_sequence,
                connect_sequence,
                message_sequence,
            },
        ),
    )
}

/// Takes the payload of a frame with `tag` off the input.
fn decode_payload(tag: Tag, decoder: &mut Decoder<'_>, limits: Limits) -> (r: Result<
    Control,
    FrameError,
>)
    ensures
        r matches Ok(control) ==> get_control(tag, old(decoder)@, limits) == Ok::<
            (ControlView, Input),
            FrameError,
        >((control@, final(decoder)@)),
        r matches Err(error) ==> get_control(tag, old(decoder)@, limits) == Err::<
            (ControlView, Input),
            FrameError,
        >(error),
{
    match tag {
        Tag::Hello => {
            let entity_type: u8 = decoder.u8();
            let peer_address = decode_address(decoder)?;
            Ok(Control::Hello(Hello { entity_type, peer_address }))
        },
        Tag::ClientIdent => decode_client_ident(decoder, limits),
        Tag::ServerIdent => decode_server_ident(decoder, limits),
        Tag::IdentMissingFeatures => Ok(
            Control::IdentMissingFeatures(IdentMissingFeatures { features: decoder.u64() }),
        ),
        Tag::SessionReconnect => decode_reconnect(decoder, limits),
        Tag::SessionReset => {
            let full: u8 = decoder.u8();
            if full > 1 {
                return Err(FrameError::Malformed);
            }
            Ok(Control::SessionReset(SessionReset { full: full == 1 }))
        },
        Tag::SessionRetry => Ok(
            Control::SessionRetry(SessionRetry { connect_sequence: decoder.u64() }),
        ),
        Tag::SessionRetryGlobal => Ok(
            Control::SessionRetryGlobal(SessionRetryGlobal { global_sequence: decoder.u64() }),
        ),
        Tag::SessionReconnectOk => Ok(
            Control::SessionReconnectOk(SessionReconnectOk { message_sequence: decoder.u64() }),
        ),
        Tag::Wait => Ok(Control::Wait),
        Tag::Keepalive2 => Ok(Control::Keepalive2(decode_timestamp(decoder)?)),
        Tag::Keepalive2Ack => Ok(Control::Keepalive2Ack(decode_timestamp(decoder)?)),
        Tag::Ack => Ok(Control::Ack(decoder.u64())),
        Tag::AuthRequest => {
            let method: u32 = decoder.u32();
            let preferred_modes = decode_u32_slice(decoder, limits.max_auth_bytes)?;
            let auth_payload = decode_auth_bytes(decoder, limits)?;
            Ok(Control::AuthRequest(AuthRequest { method, preferred_modes, auth_payload }))
        },
        Tag::AuthBadMethod => {
            let method: u32 = decoder.u32();
            let result: i32 = decoder.i32();
            let allowed_methods = decode_u32_slice(decoder, limits.max_auth_bytes)?;
            let allowed_modes = decode_u32_slice(decoder, limits.max_auth_bytes)?;
            Ok(
                Control::AuthBadMethod(
                    AuthBadMethod { method, result, allowed_methods, allowed_modes },
                ),
            )
        },
        Tag::AuthReplyMore => Ok(Control::AuthReplyMore(decode_auth_bytes(decoder, limits)?)),
        Tag::AuthRequestMore => Ok(Control::AuthRequestMore(decode_auth_bytes(decoder, limits)?)),
        Tag::AuthDone => {
            let global_id: u64 = decoder.u64();
            let connection_mode: u32 = decoder.u32();
            let auth_payload = decode_auth_bytes(decoder, limits)?;
            Ok(Control::AuthDone(AuthDone { global_id, connection_mode, auth_payload }))
        },
        Tag::AuthSignature => Ok(Control::AuthSignature(decode_signature(decoder)?)),
        Tag::Message => Err(FrameError::Malformed),
        Tag::CompressionRequest => Err(FrameError::Malformed),
        Tag::CompressionDone => Err(FrameError::Malformed),
    }
}

impl Control {
    /// The control payload of a frame.
    pub fn decode(frame: &Frame, limits: Limits) -> (r: Result<Self, FrameError>)
        ensures
            r matches Ok(control) ==> control_decoding(frame@, limits) == Ok::<
                ControlView,
                FrameError,
            >(control@),
            r matches Err(error) ==> control_decoding(frame@, limits) == Err::<
                ControlView,
                FrameError,
            >(error),
    {
        if frame.tag == Tag::CompressionRequest || frame.tag == Tag::CompressionDone {
            return Err(FrameError::UnsupportedPayload);
        }
        if frame.tag == Tag::Message || frame.segments.len() != 1 || frame.segments[0].alignment
            != DEFAULT_ALIGNMENT {
            return Err(FrameError::Malformed);
        }
        let data = &frame.segments[0].data;
        assert(frame@.segments[0].data == data@);
        if data.len() as u64 > limits.max_segment_bytes as u64 {
            return Err(FrameError::LimitExceeded);
        }
        let mut decoder = Decoder::new(data.as_slice(), limits.max_segment_bytes as usize);
        let payload = decode_payload(frame.tag, &mut decoder, limits)?;
        match decoder.finish() {
            Ok(_) => {},
            Err(error) => {
                return Err(frame_error(error));
            },
        }
        if decoder.remaining() != 0 {
            return Err(FrameError::Malformed);
        }
        Ok(payload)
    }
}

// ---------------------------------------------------------------------------
// Reading what was written
// ---------------------------------------------------------------------------

proof fn lemma_u32s_read_back(values: Seq<u32>, max_bytes: u32, tail: Seq<u8>)
    requires
        4 * values.len() <= max_bytes,
    ensures
        get_u32s(input(u32s_bytes(values) + tail), max_bytes) == Ok::<
            (Seq<u32>, Input),
            FrameError,
        >((values, input(tail))),
{
    let encode = u32_encoder();
    let decode = u32_decoder();
    let items = concatenated(values, encode);
    assert(u32s_bytes(values) + tail =~= le32(values.len() as u32) + (items + tail));
    assert forall|i: int, rest: Seq<u8>| 0 <= i < values.len() implies #[trigger] decode(
        input(encode(values[i]) + rest),
    ) == Ok::<(u32, Input), FrameError>((values[i], input(rest))) by {
        law_u32(values[i], rest);
    }
    law_many(values, encode, decode, tail);
    lemma_u32s_len(values);
}

proof fn lemma_u32s_len(values: Seq<u32>)
    ensures
        concatenated(values, u32_encoder()).len() == 4 * values.len(),
    decreases values.len(),
{
    if values.len() > 0 {
        lemma_u32s_len(values.drop_last());
    }
}

proof fn lemma_auth_bytes_read_back(payload: Seq<u8>, max_bytes: u32, tail: Seq<u8>)
    requires
        payload.len() <= max_bytes,
    ensures
        get_auth_bytes(input(prefixed(payload) + tail), max_bytes) == Ok::<
            (Seq<u8>, Input),
            FrameError,
        >((payload, input(tail))),
{
    assert(prefixed(payload) + tail =~= le32(payload.len() as u32) + (payload + tail));
    law_u32(payload.len() as u32, payload + tail);
    law_raw(payload, tail);
}

/// Whether a payload can be told from its bytes: raw payloads take the form of the payload that
/// their tag stands for, and times have less than a second of nanoseconds.
pub open spec fn readable(c: ControlView) -> bool {
    match c {
        ControlView::Keepalive2(time) => time.nanoseconds < 1_000_000_000,
        ControlView::Keepalive2Ack(time) => time.nanoseconds < 1_000_000_000,
        ControlView::AuthSignature(signature) => signature.len() == 32,
        ControlView::AuthPayload(..) => false,
        _ => true,
    }
}

proof fn lemma_idents_read_back(c: ControlView, limits: Limits, tail: Seq<u8>)
    requires
        c is ClientIdent || c is ServerIdent || c is SessionReconnect || c is Hello,
        control_encoding(c, limits) is Ok,
    ensures
        get_control(control_tag(c)->Ok_0, input(control_bytes(c) + tail), limits) == Ok::<
            (ControlView, Input),
            FrameError,
        >((c, input(tail))),
{
    match c {
        ControlView::Hello(entity_type, address) => {
            assert(control_bytes(c) + tail =~= seq![entity_type] + (address_bytes(address) + tail));
            law_address_reads_back(address, tail);
        },
        ControlView::ClientIdent(v) => {
            let last = le64(v.cookie) + tail;
            let fields = le64(unsigned64(v.global_id)) + (le64(v.global_sequence) + (le64(
                v.supported_features,
            ) + (le64(v.required_features) + (le64(v.flags) + last))));
            let after = address_bytes(v.target_address) + fields;
            assert(control_bytes(c) + tail =~= addresses_bytes(v.addresses) + after);
            law_addresses_read_back(v.addresses, limits.max_addresses, after);
            law_address_reads_back(v.target_address, fields);
        },
        ControlView::ServerIdent(v) => {
            let last = le64(v.cookie) + tail;
            let fields = le64(unsigned64(v.global_id)) + (le64(v.global_sequence) + (le64(
                v.supported_features,
            ) + (le64(v.required_features) + (le64(v.flags) + last))));
            assert(control_bytes(c) + tail =~= addresses_bytes(v.addresses) + fields);
            law_addresses_read_back(v.addresses, limits.max_addresses, fields);
        },
        ControlView::SessionReconnect(v) => {
            let last = le64(v.message_sequence) + tail;
            let fields = le64(v.client_cookie) + (le64(v.server_cookie) + (le64(v.global_sequence)
                + (le64(v.connect_sequence) + last)));
            assert(control_bytes(c) + tail =~= addresses_bytes(v.addresses) + fields);
            law_addresses_read_back(v.addresses, limits.max_addresses, fields);
        },
        _ => {},
    }
}

proof fn lemma_small_payloads_read_back(c: ControlView, limits: Limits, tail: Seq<u8>)
    requires
        !(c is ClientIdent || c is ServerIdent || c is SessionReconnect || c is Hello),
        readable(c),
        control_encoding(c, limits) is Ok,
    ensures
        get_control(control_tag(c)->Ok_0, input(control_bytes(c) + tail), limits) == Ok::<
            (ControlView, Input),
            FrameError,
        >((c, input(tail))),
{
    let max = limits.max_auth_bytes;
    match c {
        ControlView::Keepalive2(time) => {
            assert(control_bytes(c) + tail =~= le32(time.seconds) + (le32(time.nanoseconds) + tail));
        },
        ControlView::Keepalive2Ack(time) => {
            assert(control_bytes(c) + tail =~= le32(time.seconds) + (le32(time.nanoseconds) + tail));
        },
        ControlView::SessionReset(v) => {
            assert(control_bytes(c) + tail =~= seq![if v.full { 1u8 } else { 0u8 }] + tail);
        },
        ControlView::AuthRequest(method, modes, payload) => {
            let last = prefixed(payload) + tail;
            assert(control_bytes(c) + tail =~= le32(method) + (u32s_bytes(modes) + last));
            lemma_u32s_read_back(modes, max, last);
            lemma_auth_bytes_read_back(payload, max, tail);
        },
        ControlView::AuthBadMethod(method, result, methods, modes) => {
            let last = u32s_bytes(modes) + tail;
            assert(control_bytes(c) + tail =~= le32(method) + (le32(unsigned32(result)) + (u32s_bytes(
                methods,
            ) + last)));
            lemma_u32s_read_back(methods, max, last);
            lemma_u32s_read_back(modes, max, tail);
        },
        ControlView::AuthReplyMore(payload) => {
            lemma_auth_bytes_read_back(payload, max, tail);
        },
        ControlView::AuthRequestMore(payload) => {
            lemma_auth_bytes_read_back(payload, max, tail);
        },
        ControlView::AuthDone(global_id, mode, payload) => {
            assert(control_bytes(c) + tail =~= le64(global_id) + (le32(mode) + (prefixed(payload)
                + tail)));
            lemma_auth_bytes_read_back(payload, max, tail);
        },
        ControlView::AuthSignature(signature) => {
            law_raw(signature, tail);
        },
        _ => {},
    }
}

/// Reading the frame of a control payload gives back the payload. With bytes behind the payload, or
/// with another segment, the frame is refused.
pub proof fn law_control_reads_back(
    c: ControlView,
    limits: Limits,
    extra: Seq<u8>,
    segment: SegmentView,
)
    requires
        readable(c),
        control_encoding(c, limits) is Ok,
        extra.len() > 0,
    ensures
        control_decoding(control_encoding(c, limits)->Ok_0, limits) == Ok::<
            ControlView,
            FrameError,
        >(c),
        control_decoding(extended(control_encoding(c, limits)->Ok_0, extra), limits) == Err::<
            ControlView,
            FrameError,
        >(
            if control_bytes(c).len() + extra.len() > limits.max_segment_bytes {
                FrameError::LimitExceeded
            } else {
                FrameError::Malformed
            },
        ),
        control_decoding(
            FrameView {
                tag: control_encoding(c, limits)->Ok_0.tag,
                segments: control_encoding(c, limits)->Ok_0.segments.push(segment),
            },
            limits,
        ) == Err::<ControlView, FrameError>(FrameError::Malformed),
{
    let none = Seq::<u8>::empty();
    assert(control_bytes(c) + none =~= control_bytes(c));
    lemma_payload_reads_back(c, limits, none);
    lemma_payload_reads_back(c, limits, extra);
}

proof fn lemma_payload_reads_back(c: ControlView, limits: Limits, tail: Seq<u8>)
    requires
        readable(c),
        control_encoding(c, limits) is Ok,
    ensures
        get_control(control_tag(c)->Ok_0, input(control_bytes(c) + tail), limits) == Ok::<
            (ControlView, Input),
            FrameError,
        >((c, input(tail))),
{
    if c is ClientIdent || c is ServerIdent || c is SessionReconnect || c is Hello {
        lemma_idents_read_back(c, limits, tail);
    } else {
        lemma_small_payloads_read_back(c, limits, tail);
    }
}

/// A frame whose first segment has bytes behind it.
pub open spec fn extended(frame: FrameView, extra: Seq<u8>) -> FrameView {
    let first = frame.segments[0];
    FrameView {
        tag: frame.tag,
        segments: frame.segments.update(
            0,
            SegmentView { alignment: first.alignment, data: first.data + extra },
        ),
    }
}

// ---------------------------------------------------------------------------
// Views
// ---------------------------------------------------------------------------

/// What stands for a value of this type has its fields.
pub proof fn law_client_ident_has_its_fields(x: ClientIdent)
    ensures
        x@.addresses == x.addresses@,
        x@.target_address == x.target_address@,
        x@.global_id == x.global_id,
        x@.global_sequence == x.global_sequence,
        x@.supported_features == x.supported_features,
        x@.required_features == x.required_features,
        x@.flags == x.flags,
        x@.cookie == x.cookie,
{
}

/// What stands for a value of this type has its fields.
pub proof fn law_server_ident_has_its_fields(x: ServerIdent)
    ensures
        x@.addresses == x.addresses@,
        x@.global_id == x.global_id,
        x@.global_sequence == x.global_sequence,
        x@.supported_features == x.supported_features,
        x@.required_features == x.required_features,
        x@.flags == x.flags,
        x@.cookie == x.cookie,
{
}

/// What stands for a value of this type has its fields.
pub proof fn law_session_reconnect_has_its_fields(x: SessionReconnect)
    ensures
        x@.addresses == x.addresses@,
        x@.client_cookie == x.client_cookie,
        x@.server_cookie == x.server_cookie,
        x@.global_sequence == x.global_sequence,
        x@.connect_sequence == x.connect_sequence,
        x@.message_sequence == x.message_sequence,
{
}

/// What stands for a value of this type is its case, with what it holds.
pub proof fn law_control_is_its_case(x: &Control)
    ensures
        x@ == (match x {
                Control::Hello(v) => ControlView::Hello(v.entity_type, v.peer_address@),
                Control::ClientIdent(v) => ControlView::ClientIdent(v@),
                Control::ServerIdent(v) => ControlView::ServerIdent(v@),
                Control::IdentMissingFeatures(v) => ControlView::IdentMissingFeatures(*v),
                Control::SessionReconnect(v) => ControlView::SessionReconnect(v@),
                Control::SessionReset(v) => ControlView::SessionReset(*v),
                Control::SessionRetry(v) => ControlView::SessionRetry(*v),
                Control::SessionRetryGlobal(v) => ControlView::SessionRetryGlobal(*v),
                Control::SessionReconnectOk(v) => ControlView::SessionReconnectOk(*v),
                Control::Wait => ControlView::Wait,
                Control::Keepalive2(v) => ControlView::Keepalive2(*v),
                Control::Keepalive2Ack(v) => ControlView::Keepalive2Ack(*v),
                Control::Ack(v) => ControlView::Ack(*v),
                Control::AuthRequest(v) => ControlView::AuthRequest(
                    v.method,
                    v.preferred_modes@,
                    v.auth_payload@,
                ),
                Control::AuthBadMethod(v) => ControlView::AuthBadMethod(
                    v.method,
                    v.result,
                    v.allowed_methods@,
                    v.allowed_modes@,
                ),
                Control::AuthReplyMore(v) => ControlView::AuthReplyMore(v@),
                Control::AuthRequestMore(v) => ControlView::AuthRequestMore(v@),
                Control::AuthDone(v) => ControlView::AuthDone(
                    v.global_id,
                    v.connection_mode,
                    v.auth_payload@,
                ),
                Control::AuthSignature(v) => ControlView::AuthSignature(v@),
                Control::AuthPayload { tag, payload } => ControlView::AuthPayload(*tag, payload@),
            }),
{
}

} // verus!
