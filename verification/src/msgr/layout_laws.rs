//! Where each field of a payload stands on the wire.

use super::control::{control_bytes, control_encoding, u32s_bytes, ControlView};
use super::frame::{tag_code, Limits, Tag};
use super::message::{
    front_only, header_bytes, message_encoding, message_segments, segments_size, MessageHeader,
    MessageView,
};
use crate::protocol::address::{
    address_bytes, addresses_bytes, address_encoder, endpoint_of, ipv4_socket, AddressView,
    Endpoint4,
};
use crate::wire::{
    concatenated, from_le16, from_le32, from_le64, le16, le32, le64, prefixed, unsigned32,
    unsigned64,
};
use vstd::prelude::*;

verus! {

broadcast use crate::wire::group_integers;

/// The number that starts at a place.
pub open spec fn u16_at(b: Seq<u8>, at: int) -> u16 {
    from_le16(b.subrange(at, at + 2))
}

pub open spec fn u32_at(b: Seq<u8>, at: int) -> u32 {
    from_le32(b.subrange(at, at + 4))
}

pub open spec fn u64_at(b: Seq<u8>, at: int) -> u64 {
    from_le64(b.subrange(at, at + 8))
}

// ---------------------------------------------------------------------------
// Frames
// ---------------------------------------------------------------------------

/// The tags count from one, in the order of the protocol: greetings, authentication, identification,
/// resumption, messages, signs of life and acknowledgments, and last what is not sent.
pub proof fn law_tags_have_their_numbers()
    ensures
        tag_code(Tag::Hello) == 1,
        tag_code(Tag::AuthRequest) == 2,
        tag_code(Tag::AuthBadMethod) == 3,
        tag_code(Tag::AuthReplyMore) == 4,
        tag_code(Tag::AuthRequestMore) == 5,
        tag_code(Tag::AuthDone) == 6,
        tag_code(Tag::AuthSignature) == 7,
        tag_code(Tag::ClientIdent) == 8,
        tag_code(Tag::ServerIdent) == 9,
        tag_code(Tag::IdentMissingFeatures) == 10,
        tag_code(Tag::SessionReconnect) == 11,
        tag_code(Tag::SessionReset) == 12,
        tag_code(Tag::SessionRetry) == 13,
        tag_code(Tag::SessionRetryGlobal) == 14,
        tag_code(Tag::SessionReconnectOk) == 15,
        tag_code(Tag::Wait) == 16,
        tag_code(Tag::Message) == 17,
        tag_code(Tag::Keepalive2) == 18,
        tag_code(Tag::Keepalive2Ack) == 19,
        tag_code(Tag::Ack) == 20,
        tag_code(Tag::CompressionRequest) > 20,
        tag_code(Tag::CompressionDone) > 20,
{
}

// ---------------------------------------------------------------------------
// Messages
// ---------------------------------------------------------------------------

/// The header of a message has each field at its place.
pub proof fn law_header_layout(h: MessageHeader)
    ensures
        ({
            let b = header_bytes(h);
            &&& b.len() == 41
            &&& u64_at(b, 0) == h.sequence
            &&& u64_at(b, 8) == h.transaction_id
            &&& u16_at(b, 16) == h.message_type
            &&& u16_at(b, 18) == h.priority
            &&& u16_at(b, 20) == h.version
            &&& u32_at(b, 22) == h.data_pre_padding_length
            &&& u16_at(b, 26) == h.data_offset
            &&& u64_at(b, 28) == h.ack_sequence
            &&& b[36] == h.flags
            &&& u16_at(b, 37) == h.compat_version
            &&& u16_at(b, 39) == h.reserved
        }),
{
    let b = header_bytes(h);
    assert(b.subrange(0, 8) =~= le64(h.sequence));
    assert(b.subrange(8, 16) =~= le64(h.transaction_id));
    assert(b.subrange(16, 18) =~= le16(h.message_type));
    assert(b.subrange(18, 20) =~= le16(h.priority));
    assert(b.subrange(20, 22) =~= le16(h.version));
    assert(b.subrange(22, 26) =~= le32(h.data_pre_padding_length));
    assert(b.subrange(26, 28) =~= le16(h.data_offset));
    assert(b.subrange(28, 36) =~= le64(h.ack_sequence));
    assert(b.subrange(37, 39) =~= le16(h.compat_version));
    assert(b.subrange(39, 41) =~= le16(h.reserved));
}

/// A message is a frame of its own tag: its header, its front, its middle and its data, the data on
/// page boundaries and the others on words.
pub proof fn law_message_layout(m: MessageView, limits: Limits)
    ensures
        message_encoding(m, limits) matches Ok(frame) ==> {
            &&& tag_code(frame.tag) == 17
            &&& frame.segments.len() == 4
            &&& frame.segments[0].data == header_bytes(m.header)
            &&& frame.segments[1].data == m.front
            &&& frame.segments[2].data == m.middle
            &&& frame.segments[3].data == m.data
            &&& frame.segments[0].alignment == 8
            &&& frame.segments[1].alignment == 8
            &&& frame.segments[2].alignment == 8
            &&& frame.segments[3].alignment == 4096
            &&& m.lengths.front == m.front.len()
            &&& m.lengths.middle == m.middle.len()
            &&& m.lengths.data == m.data.len()
            &&& m.header.data_pre_padding_length <= m.data.len()
            &&& 41 <= limits.max_segment_bytes
            &&& m.front.len() <= limits.max_segment_bytes
            &&& m.middle.len() <= limits.max_segment_bytes
            &&& m.data.len() <= limits.max_segment_bytes
            &&& 41 + m.front.len() + m.middle.len() + m.data.len() <= limits.max_frame_bytes
        },
        m.lengths.front == m.front.len() && m.lengths.middle == m.middle.len() && m.lengths.data
            == m.data.len() && m.header.data_pre_padding_length <= m.data.len() && 41
            <= limits.max_segment_bytes && m.front.len() <= limits.max_segment_bytes
            && m.middle.len() <= limits.max_segment_bytes && m.data.len()
            <= limits.max_segment_bytes && 41 + m.front.len() + m.middle.len() + m.data.len()
            <= limits.max_frame_bytes ==> message_encoding(m, limits) is Ok,
{
    reveal_with_fuel(super::message::segment_fault, 5);
    reveal_with_fuel(segments_size, 5);
    let s = message_segments(m);
    assert(header_bytes(m.header).len() == 41);
    assert(s.drop_last() =~= seq![s[0], s[1], s[2]]);
    assert(s.drop_last().drop_last() =~= seq![s[0], s[1]]);
    assert(s.drop_last().drop_last().drop_last() =~= seq![s[0]]);
    assert(s.drop_last().drop_last().drop_last().drop_last() =~= Seq::empty());
}

/// A message that is all front has nothing else, and no fields but the three that are given.
pub proof fn law_front_only_layout(
    message_type: u16,
    version: u16,
    compat_version: u16,
    front: Seq<u8>,
)
    requires
        front.len() <= u32::MAX,
    ensures
        ({
            let m = front_only(message_type, version, compat_version, front);
            &&& m.front == front
            &&& m.middle.len() == 0
            &&& m.data.len() == 0
            &&& m.lengths.front == front.len()
            &&& m.lengths.middle == 0
            &&& m.lengths.data == 0
            &&& m.header.message_type == message_type
            &&& m.header.version == version
            &&& m.header.compat_version == compat_version
            &&& m.header.sequence == 0
            &&& m.header.transaction_id == 0
            &&& m.header.ack_sequence == 0
            &&& m.header.priority == 0
            &&& m.header.flags == 0
        }),
{
}

// ---------------------------------------------------------------------------
// Addresses
// ---------------------------------------------------------------------------

/// An address says its kind, its nonce, how long the socket address is, and the socket address.
pub proof fn law_address_layout(a: AddressView)
    requires
        a.socket_data.len() + 14 <= u32::MAX,
    ensures
        ({
            let b = address_bytes(a);
            let n = a.socket_data.len() as int;
            &&& b.len() == 21 + n
            &&& b[0] == 1
            &&& b[1] == 1
            &&& b[2] == 1
            &&& u32_at(b, 3) == 14 + n
            &&& u32_at(b, 7) == a.kind
            &&& u32_at(b, 11) == a.nonce
            &&& u32_at(b, 15) == n + 2
            &&& u16_at(b, 19) == a.family
            &&& b.subrange(21, 21 + n) == a.socket_data
        }),
{
    let b = address_bytes(a);
    let n = a.socket_data.len() as int;
    assert(b.subrange(3, 7) =~= le32((14 + n) as u32));
    assert(b.subrange(7, 11) =~= le32(a.kind));
    assert(b.subrange(11, 15) =~= le32(a.nonce));
    assert(b.subrange(15, 19) =~= le32((n + 2) as u32));
    assert(b.subrange(19, 21) =~= le16(a.family));
    assert(b.subrange(21, 21 + n) =~= a.socket_data);
}

/// A list of addresses says how many there are. One of one address is that address behind it.
pub proof fn law_addresses_layout(s: Seq<AddressView>)
    requires
        s.len() <= u32::MAX,
    ensures
        addresses_bytes(s).len() >= 5,
        addresses_bytes(s)[0] == 2,
        u32_at(addresses_bytes(s), 1) == s.len(),
        s.len() == 0 ==> addresses_bytes(s).len() == 5,
        s.len() > 0 ==> addresses_bytes(s).skip(5) == addresses_bytes(s.drop_last()).skip(5)
            + address_bytes(s.last()),
{
    let b = addresses_bytes(s);
    assert(b.subrange(1, 5) =~= le32(s.len() as u32));
    assert(b.skip(5) =~= concatenated(s, address_encoder()));
    if s.len() > 0 {
        assert(addresses_bytes(s.drop_last()).skip(5) =~= concatenated(
            s.drop_last(),
            address_encoder(),
        ));
    }
}

/// The socket address of an IPv4 endpoint holds its port, most significant byte first, and then its
/// four numbers; and the endpoint is read from it.
pub proof fn law_endpoint_layout(e: Endpoint4, a: AddressView)
    ensures
        ipv4_socket(e).len() == 14,
        ipv4_socket(e)[0] * 256 + ipv4_socket(e)[1] == e.port,
        ipv4_socket(e)[2] == e.a,
        ipv4_socket(e)[3] == e.b,
        ipv4_socket(e)[4] == e.c,
        ipv4_socket(e)[5] == e.d,
        forall|i: int| 6 <= i < 14 ==> #[trigger] ipv4_socket(e)[i] == 0,
        a.family == 2 && a.socket_data == ipv4_socket(e) ==> endpoint_of(a) == Some(e),
        a.family != 2 || a.socket_data.len() < 6 ==> endpoint_of(a) is None,
{
}

// ---------------------------------------------------------------------------
// Control payloads
// ---------------------------------------------------------------------------

/// A control payload is the only segment of a frame of its own tag.
pub proof fn law_control_frame_layout(c: ControlView, limits: Limits)
    ensures
        control_encoding(c, limits) matches Ok(frame) ==> {
            &&& frame.segments.len() == 1
            &&& frame.segments[0].data == control_bytes(c)
            &&& frame.segments[0].alignment == 8
            &&& control_bytes(c).len() <= limits.max_segment_bytes
            &&& c is Hello ==> tag_code(frame.tag) == 1
            &&& c is AuthRequest ==> tag_code(frame.tag) == 2
            &&& c is AuthBadMethod ==> tag_code(frame.tag) == 3
            &&& c is AuthReplyMore ==> tag_code(frame.tag) == 4
            &&& c is AuthRequestMore ==> tag_code(frame.tag) == 5
            &&& c is AuthDone ==> tag_code(frame.tag) == 6
            &&& c is AuthSignature ==> tag_code(frame.tag) == 7
            &&& c is ClientIdent ==> tag_code(frame.tag) == 8
            &&& c is ServerIdent ==> tag_code(frame.tag) == 9
            &&& c is IdentMissingFeatures ==> tag_code(frame.tag) == 10
            &&& c is SessionReconnect ==> tag_code(frame.tag) == 11
            &&& c is SessionReset ==> tag_code(frame.tag) == 12
            &&& c is SessionRetry ==> tag_code(frame.tag) == 13
            &&& c is SessionRetryGlobal ==> tag_code(frame.tag) == 14
            &&& c is SessionReconnectOk ==> tag_code(frame.tag) == 15
            &&& c is Wait ==> tag_code(frame.tag) == 16
            &&& c is Keepalive2 ==> tag_code(frame.tag) == 18
            &&& c is Keepalive2Ack ==> tag_code(frame.tag) == 19
            &&& c is Ack ==> tag_code(frame.tag) == 20
            &&& c matches ControlView::AuthPayload(tag, _) ==> frame.tag == tag && 2 <= tag_code(
                tag,
            ) <= 7
        },
{
}

/// A client introduces itself with its addresses, that of the server, its id, the number of the
/// connection, the features that it has and requires, its flags and its cookie.
pub proof fn law_client_ident_layout(c: ControlView)
    requires
        c is ClientIdent,
    ensures
        ({
            let v = c->ClientIdent_0;
            let b = control_bytes(c);
            let n = (addresses_bytes(v.addresses).len() + address_bytes(
                v.target_address,
            ).len()) as int;
            &&& b.len() == n + 48
            &&& b.take(n) == addresses_bytes(v.addresses) + address_bytes(v.target_address)
            &&& u64_at(b, n) == unsigned64(v.global_id)
            &&& u64_at(b, n + 8) == v.global_sequence
            &&& u64_at(b, n + 16) == v.supported_features
            &&& u64_at(b, n + 24) == v.required_features
            &&& u64_at(b, n + 32) == v.flags
            &&& u64_at(b, n + 40) == v.cookie
        }),
{
    let v = c->ClientIdent_0;
    let b = control_bytes(c);
    let n = (addresses_bytes(v.addresses).len() + address_bytes(v.target_address).len()) as int;
    assert(b.take(n) =~= addresses_bytes(v.addresses) + address_bytes(v.target_address));
    assert(b.subrange(n, n + 8) =~= le64(unsigned64(v.global_id)));
    assert(b.subrange(n + 8, n + 16) =~= le64(v.global_sequence));
    assert(b.subrange(n + 16, n + 24) =~= le64(v.supported_features));
    assert(b.subrange(n + 24, n + 32) =~= le64(v.required_features));
    assert(b.subrange(n + 32, n + 40) =~= le64(v.flags));
    assert(b.subrange(n + 40, n + 48) =~= le64(v.cookie));
}

/// A server introduces itself with its addresses, its id, the number of the connection, the features
/// that it has and requires, its flags and its cookie.
pub proof fn law_server_ident_layout(c: ControlView)
    requires
        c is ServerIdent,
    ensures
        ({
            let v = c->ServerIdent_0;
            let b = control_bytes(c);
            let n = addresses_bytes(v.addresses).len() as int;
            &&& b.len() == n + 48
            &&& b.take(n) == addresses_bytes(v.addresses)
            &&& u64_at(b, n) == unsigned64(v.global_id)
            &&& u64_at(b, n + 8) == v.global_sequence
            &&& u64_at(b, n + 16) == v.supported_features
            &&& u64_at(b, n + 24) == v.required_features
            &&& u64_at(b, n + 32) == v.flags
            &&& u64_at(b, n + 40) == v.cookie
        }),
{
    let v = c->ServerIdent_0;
    let b = control_bytes(c);
    let n = addresses_bytes(v.addresses).len() as int;
    assert(b.take(n) =~= addresses_bytes(v.addresses));
    assert(b.subrange(n, n + 8) =~= le64(unsigned64(v.global_id)));
    assert(b.subrange(n + 8, n + 16) =~= le64(v.global_sequence));
    assert(b.subrange(n + 16, n + 24) =~= le64(v.supported_features));
    assert(b.subrange(n + 24, n + 32) =~= le64(v.required_features));
    assert(b.subrange(n + 32, n + 40) =~= le64(v.flags));
    assert(b.subrange(n + 40, n + 48) =~= le64(v.cookie));
}

/// A request to resume a session names the client's addresses, its cookie and then that of the
/// server, the numbers of the connection and of the attempt, and the last message received.
pub proof fn law_reconnect_layout(c: ControlView)
    requires
        c is SessionReconnect,
    ensures
        ({
            let v = c->SessionReconnect_0;
            let b = control_bytes(c);
            let n = addresses_bytes(v.addresses).len() as int;
            &&& b.len() == n + 40
            &&& b.take(n) == addresses_bytes(v.addresses)
            &&& u64_at(b, n) == v.client_cookie
            &&& u64_at(b, n + 8) == v.server_cookie
            &&& u64_at(b, n + 16) == v.global_sequence
            &&& u64_at(b, n + 24) == v.connect_sequence
            &&& u64_at(b, n + 32) == v.message_sequence
        }),
{
    let v = c->SessionReconnect_0;
    let b = control_bytes(c);
    let n = addresses_bytes(v.addresses).len() as int;
    assert(b.take(n) =~= addresses_bytes(v.addresses));
    assert(b.subrange(n, n + 8) =~= le64(v.client_cookie));
    assert(b.subrange(n + 8, n + 16) =~= le64(v.server_cookie));
    assert(b.subrange(n + 16, n + 24) =~= le64(v.global_sequence));
    assert(b.subrange(n + 24, n + 32) =~= le64(v.connect_sequence));
    assert(b.subrange(n + 32, n + 40) =~= le64(v.message_sequence));
}

/// Control payloads of one number are that number; a reset says whether all is lost; a sign of life
/// is a time, seconds first; a greeting says what kind of peer this is and where the other one is.
pub proof fn law_short_controls_layout(c: ControlView)
    ensures
        c matches ControlView::IdentMissingFeatures(v) ==> control_bytes(c).len() == 8 && u64_at(
            control_bytes(c),
            0,
        ) == v.features,
        c matches ControlView::SessionRetry(v) ==> control_bytes(c).len() == 8 && u64_at(
            control_bytes(c),
            0,
        ) == v.connect_sequence,
        c matches ControlView::SessionRetryGlobal(v) ==> control_bytes(c).len() == 8 && u64_at(
            control_bytes(c),
            0,
        ) == v.global_sequence,
        c matches ControlView::SessionReconnectOk(v) ==> control_bytes(c).len() == 8 && u64_at(
            control_bytes(c),
            0,
        ) == v.message_sequence,
        c matches ControlView::Ack(sequence) ==> control_bytes(c).len() == 8 && u64_at(
            control_bytes(c),
            0,
        ) == sequence,
        c matches ControlView::SessionReset(v) ==> control_bytes(c).len() == 1 && (
        control_bytes(c)[0] == 1 <==> v.full) && control_bytes(c)[0] <= 1,
        c is Wait ==> control_bytes(c).len() == 0,
        c matches ControlView::Keepalive2(v) ==> control_bytes(c).len() == 8 && u32_at(
            control_bytes(c),
            0,
        ) == v.seconds && u32_at(control_bytes(c), 4) == v.nanoseconds,
        c matches ControlView::Keepalive2Ack(v) ==> control_bytes(c).len() == 8 && u32_at(
            control_bytes(c),
            0,
        ) == v.seconds && u32_at(control_bytes(c), 4) == v.nanoseconds,
        c matches ControlView::Hello(kind, address) ==> control_bytes(c)[0] == kind
            && control_bytes(c).skip(1) == address_bytes(address),
{
    let b = control_bytes(c);
    if b.len() == 8 {
        assert(b.subrange(0, 8) =~= b);
    }
    match c {
        ControlView::Keepalive2(v) => {
            assert(b.subrange(0, 4) =~= le32(v.seconds));
            assert(b.subrange(4, 8) =~= le32(v.nanoseconds));
        },
        ControlView::Keepalive2Ack(v) => {
            assert(b.subrange(0, 4) =~= le32(v.seconds));
            assert(b.subrange(4, 8) =~= le32(v.nanoseconds));
        },
        ControlView::Hello(kind, address) => {
            assert(b.skip(1) =~= address_bytes(address));
        },
        _ => {},
    }
}

/// The payloads of authentication: methods, results and modes each at their place, and what the
/// method itself exchanges behind its length.
pub proof fn law_auth_controls_layout(c: ControlView)
    ensures
        c matches ControlView::AuthRequest(method, modes, payload) ==> u32_at(control_bytes(c), 0)
            == method && control_bytes(c).skip(4) == u32s_bytes(modes) + prefixed(payload),
        c matches ControlView::AuthBadMethod(method, result, methods, modes) ==> u32_at(
            control_bytes(c),
            0,
        ) == method && u32_at(control_bytes(c), 4) == unsigned32(result) && control_bytes(c).skip(8)
            == u32s_bytes(methods) + u32s_bytes(modes),
        c matches ControlView::AuthDone(global_id, mode, payload) ==> u64_at(control_bytes(c), 0)
            == global_id && u32_at(control_bytes(c), 8) == mode && control_bytes(c).skip(12)
            == prefixed(payload),
        c matches ControlView::AuthReplyMore(payload) ==> control_bytes(c) == prefixed(payload),
        c matches ControlView::AuthRequestMore(payload) ==> control_bytes(c) == prefixed(payload),
        c matches ControlView::AuthSignature(signature) ==> control_bytes(c) == signature,
        c matches ControlView::AuthPayload(_, payload) ==> control_bytes(c) == payload,
{
    let b = control_bytes(c);
    match c {
        ControlView::AuthRequest(method, modes, payload) => {
            assert(b.subrange(0, 4) =~= le32(method));
            assert(b.skip(4) =~= u32s_bytes(modes) + prefixed(payload));
        },
        ControlView::AuthBadMethod(method, result, methods, modes) => {
            assert(b.subrange(0, 4) =~= le32(method));
            assert(b.subrange(4, 8) =~= le32(unsigned32(result)));
            assert(b.skip(8) =~= u32s_bytes(methods) + u32s_bytes(modes));
        },
        ControlView::AuthDone(global_id, mode, payload) => {
            assert(b.subrange(0, 8) =~= le64(global_id));
            assert(b.subrange(8, 12) =~= le32(mode));
            assert(b.skip(12) =~= prefixed(payload));
        },
        _ => {},
    }
}

} // verus!
