//! Addresses of cluster members.

use crate::wire::{
    ascii_chars, ascii_string, concatenated, decimal, push_decimal, finished, get_many, get_u16,
    get_u32, get_u8, get_versioned, input, law_many, lemma_get_many_error, le16, le32, same_bytes,
    versioned, zeros, Decoder, Encoder, Input, WireError, MAX_ENCODING,
};
use vstd::prelude::*;
use vstd::slice::slice_to_vec;

verus! {

broadcast use {crate::wire::group_integers, crate::wire::group_reads};

/// The kind of an address of the second messenger protocol.
pub const ADDRESS_MESSENGER_2: u32 = 2;

/// The address family of IPv4.
pub const FAMILY_IPV4: u16 = 2;

/// The address family of IPv6.
pub const FAMILY_IPV6: u16 = 10;

/// An address: its kind, a nonce that tells apart processes at one endpoint, and a socket address.
#[derive(Debug, PartialEq, Eq)]
pub struct EntityAddr {
    pub kind: u32,
    pub nonce: u32,
    pub family: u16,
    pub socket_data: Vec<u8>,
}

/// The addresses of one member.
#[derive(Debug, PartialEq, Eq)]
pub struct EntityAddrVec(pub Vec<EntityAddr>);

#[verifier::ext_equal]
pub struct AddressView {
    pub kind: u32,
    pub nonce: u32,
    pub family: u16,
    pub socket_data: Seq<u8>,
}

impl View for EntityAddr {
    type V = AddressView;

    open spec fn view(&self) -> AddressView {
        AddressView {
            kind: self.kind,
            nonce: self.nonce,
            family: self.family,
            socket_data: self.socket_data@,
        }
    }
}

pub open spec fn addresses_view(s: Seq<EntityAddr>) -> Seq<AddressView> {
    Seq::new(s.len(), |i: int| s[i]@)
}

impl View for EntityAddrVec {
    type V = Seq<AddressView>;

    open spec fn view(&self) -> Seq<AddressView> {
        addresses_view(self.0@)
    }
}

impl Clone for EntityAddr {
    fn clone(&self) -> (r: Self)
        ensures
            r@ == self@,
    {
        EntityAddr {
            kind: self.kind,
            nonce: self.nonce,
            family: self.family,
            socket_data: slice_to_vec(self.socket_data.as_slice()),
        }
    }
}

impl Clone for EntityAddrVec {
    fn clone(&self) -> (r: Self)
        ensures
            r@ == self@,
    {
        let mut copy: Vec<EntityAddr> = Vec::new();
        let mut i: usize = 0;
        while i < self.0.len()
            invariant
                i <= self.0@.len(),
                copy@.len() == i,
                forall|k: int| 0 <= k < i ==> (#[trigger] copy@[k])@ == self.0@[k]@,
            decreases self.0@.len() - i,
        {
            copy.push(self.0[i].clone());
            i = i + 1;
        }
        assert(addresses_view(copy@) =~= addresses_view(self.0@));
        EntityAddrVec(copy)
    }
}

/// An IPv4 address and a port.
#[derive(Clone, Copy, Debug, PartialEq, Eq, Structural)]
pub struct Endpoint4 {
    pub a: u8,
    pub b: u8,
    pub c: u8,
    pub d: u8,
    pub port: u16,
}

/// A socket address without its family: the port, most significant byte first, the address and
/// eight zero bytes.
pub open spec fn ipv4_socket(e: Endpoint4) -> Seq<u8> {
    seq![(e.port / 256) as u8, (e.port % 256) as u8, e.a, e.b, e.c, e.d] + zeros(8)
}

/// The endpoint of an IPv4 address.
pub open spec fn endpoint_of(a: AddressView) -> Option<Endpoint4> {
    if a.family == FAMILY_IPV4 && a.socket_data.len() >= 6 {
        Some(
            Endpoint4 {
                a: a.socket_data[2],
                b: a.socket_data[3],
                c: a.socket_data[4],
                d: a.socket_data[5],
                port: (a.socket_data[0] * 256 + a.socket_data[1]) as u16,
            },
        )
    } else {
        None
    }
}

/// The fields of an address.
pub open spec fn address_payload(a: AddressView) -> Seq<u8> {
    le32(a.kind) + (le32(a.nonce) + (le32((a.socket_data.len() + 2) as u32) + (le16(a.family)
        + a.socket_data)))
}

/// An address on the wire.
pub open spec fn address_bytes(a: AddressView) -> Seq<u8> {
    seq![1u8] + versioned(1, 1, address_payload(a))
}

/// The address that a payload holds.
pub open spec fn address_fields(d: Input) -> Result<AddressView, WireError> {
    let (kind, d1) = get_u32(d);
    let (nonce, d2) = get_u32(d1);
    let (length, d3) = get_u32(d2);
    let (family, d4) = get_u16(d3);
    if finished(d4) is Err {
        Err(finished(d4)->Err_0)
    } else if length != d4.rest.len() + 2 {
        Err(WireError::Malformed)
    } else {
        Ok(AddressView { kind, nonce, family, socket_data: d4.rest })
    }
}

/// The next address of the input.
pub open spec fn get_address(d: Input) -> Result<(AddressView, Input), WireError> {
    let (marker, d1) = get_u8(d);
    let (version, payload, d2) = get_versioned(d1, 1);
    if finished(d1) is Err {
        Err(finished(d1)->Err_0)
    } else if marker != 1 {
        Err(WireError::Malformed)
    } else if finished(d2) is Err {
        Err(finished(d2)->Err_0)
    } else if version != 1 {
        Err(WireError::UnsupportedVersion { local: 1, required: version })
    } else {
        match address_fields(payload) {
            Err(error) => Err(error),
            Ok(address) => Ok((address, d2)),
        }
    }
}

/// What is left after an address, read or refused: a wrong marker is all that is taken, else the
/// versioned entry behind it is, as a whole.
pub open spec fn address_left(d: Input) -> Input {
    let (marker, d1) = get_u8(d);
    if finished(d1) is Err || marker != 1 {
        d1
    } else {
        get_versioned(d1, 1).2
    }
}

pub open spec fn address_decoder() -> spec_fn(Input) -> Result<(AddressView, Input), WireError> {
    |d: Input| get_address(d)
}

pub open spec fn address_encoder() -> spec_fn(AddressView) -> Seq<u8> {
    |a: AddressView| address_bytes(a)
}

/// A list of addresses on the wire.
pub open spec fn addresses_bytes(s: Seq<AddressView>) -> Seq<u8> {
    seq![2u8] + (le32(s.len() as u32) + concatenated(s, address_encoder()))
}

/// The next list of addresses, of at most `max` entries.
pub open spec fn get_addresses(d: Input, max: u32) -> Result<(Seq<AddressView>, Input), WireError> {
    let (marker, d1) = get_u8(d);
    let (count, d2) = get_u32(d1);
    if finished(d2) is Err {
        Err(finished(d2)->Err_0)
    } else if marker != 2 {
        Err(WireError::Malformed)
    } else if count > max {
        Err(WireError::LimitExceeded)
    } else {
        get_many(d2, count as nat, address_decoder())
    }
}

/// What is left after a list of addresses, read or refused: what follows the first entry that is
/// refused, or the last one.
pub open spec fn addresses_left(d: Input, max: u32) -> Input {
    let (marker, d1) = get_u8(d);
    let (count, d2) = get_u32(d1);
    if finished(d2) is Err || marker != 2 || count > max {
        d2
    } else {
        entries_left(d2, count as nat)
    }
}

/// What is left after `count` addresses, up to the first that is refused.
pub open spec fn entries_left(d: Input, count: nat) -> Input
    decreases count,
{
    if count == 0 {
        d
    } else {
        match get_many(d, (count - 1) as nat, address_decoder()) {
            Err(_) => entries_left(d, (count - 1) as nat),
            Ok((_, rest)) => address_left(rest),
        }
    }
}

proof fn lemma_entries_left(d: Input, part: nat, count: nat)
    requires
        part <= count,
        get_many(d, part, address_decoder()) is Err,
    ensures
        entries_left(d, count) == entries_left(d, part),
    decreases count,
{
    if part < count {
        lemma_get_many_error(d, part, (count - 1) as nat, address_decoder());
        lemma_entries_left(d, part, (count - 1) as nat);
    }
}

impl EntityAddr {
    /// The address of an IPv4 endpoint in the second messenger protocol, with a zero nonce.
    pub fn ipv4_v2(endpoint: Endpoint4) -> (r: Self)
        ensures
            r@ == (AddressView {
                kind: ADDRESS_MESSENGER_2,
                nonce: 0,
                family: FAMILY_IPV4,
                socket_data: ipv4_socket(endpoint),
            }),
    {
        let mut socket_data: Vec<u8> = Vec::new();
        socket_data.push((endpoint.port / 256) as u8);
        socket_data.push((endpoint.port % 256) as u8);
        socket_data.push(endpoint.a);
        socket_data.push(endpoint.b);
        socket_data.push(endpoint.c);
        socket_data.push(endpoint.d);
        while socket_data.len() < 14
            invariant
                6 <= socket_data@.len() <= 14,
                socket_data@.take(6) == ipv4_socket(endpoint).take(6),
                forall|k: int| 6 <= k < socket_data@.len() ==> socket_data@[k] == 0,
            decreases 14 - socket_data@.len(),
        {
            let ghost before = socket_data@;
            socket_data.push(0);
            assert(socket_data@.take(6) =~= before.take(6));
        }
        proof {
            let want = ipv4_socket(endpoint);
            assert forall|k: int| 0 <= k < 14 implies socket_data@[k] == want[k] by {
                if k < 6 {
                    assert(socket_data@.take(6)[k] == want.take(6)[k]);
                }
            }
            assert(socket_data@ =~= want);
        }
        EntityAddr { kind: ADDRESS_MESSENGER_2, nonce: 0, family: FAMILY_IPV4, socket_data }
    }

    /// This address with another nonce.
    pub fn with_nonce(self, nonce: u32) -> (r: Self)
        ensures
            r@ == (AddressView { nonce, ..self@ }),
    {
        EntityAddr { nonce, ..self }
    }

    /// The endpoint of an IPv4 address.
    pub fn endpoint(&self) -> (r: Option<Endpoint4>)
        ensures
            r == endpoint_of(self@),
    {
        if self.family == FAMILY_IPV4 && self.socket_data.len() >= 6 {
            Some(
                Endpoint4 {
                    a: self.socket_data[2],
                    b: self.socket_data[3],
                    c: self.socket_data[4],
                    d: self.socket_data[5],
                    port: self.socket_data[0] as u16 * 256 + self.socket_data[1] as u16,
                },
            )
        } else {
            None
        }
    }

    /// Whether two addresses are those of one socket address, whatever their nonces.
    pub fn has_same_endpoint(&self, other: &EntityAddr) -> (r: bool)
        ensures
            r == same_endpoint(self@, other@),
    {
        self.family == other.family && same_bytes(
            self.socket_data.as_slice(),
            other.socket_data.as_slice(),
        )
    }

    pub fn encode(&self, encoder: &mut Encoder)
        requires
            old(encoder).wf(),
        ensures
            final(encoder).wf(),
            final(encoder).limit() == old(encoder).limit(),
            final(encoder)@ == old(encoder)@ + address_bytes(self@),
    {
        encoder.u8(1);
        let mut payload = encoder.nested();
        payload.u32(self.kind);
        payload.u32(self.nonce);
        payload.u32(#[verifier::truncate] ((self.socket_data.len() as u128 + 2) as u32));
        payload.u16(self.family);
        payload.raw(self.socket_data.as_slice());
        assert(payload@ =~= address_payload(self@));
        encoder.versioned(1, 1, payload);
        assert(encoder@ =~= old(encoder)@ + address_bytes(self@));
    }

    pub fn decode(decoder: &mut Decoder<'_>) -> (r: Result<Self, WireError>)
        ensures
            r matches Ok(address) ==> get_address(old(decoder)@) == Ok::<
                (AddressView, Input),
                WireError,
            >((address@, final(decoder)@)),
            r matches Err(error) ==> get_address(old(decoder)@) == Err::<
                (AddressView, Input),
                WireError,
            >(error),
            final(decoder)@ == address_left(old(decoder)@),
    {
        let marker: u8 = decoder.u8();
        match decoder.finish() {
            Ok(_) => {},
            Err(error) => {
                return Err(error);
            },
        }
        if marker != 1 {
            return Err(WireError::Malformed);
        }
        let (version, mut payload) = decoder.versioned(1);
        match decoder.finish() {
            Ok(_) => {},
            Err(error) => {
                return Err(error);
            },
        }
        if version != 1 {
            return Err(WireError::UnsupportedVersion { local: 1, required: version });
        }
        let kind: u32 = payload.u32();
        let nonce: u32 = payload.u32();
        let length: u32 = payload.u32();
        let family: u16 = payload.u16();
        match payload.finish() {
            Ok(_) => {},
            Err(error) => {
                return Err(error);
            },
        }
        let remaining: usize = payload.remaining();
        if length < 2 || (length - 2) as usize != remaining {
            return Err(WireError::Malformed);
        }
        let ghost before = payload@;
        let socket_data = payload.raw(remaining);
        assert(socket_data@ =~= before.rest);
        Ok(EntityAddr { kind, nonce, family, socket_data })
    }
}

/// An endpoint in its usual notation: four decimal numbers with dots between them, a colon and the
/// port.
pub open spec fn endpoint_text(e: Endpoint4) -> Seq<u8> {
    decimal(e.a as nat) + seq![46u8] + decimal(e.b as nat) + seq![46u8] + decimal(e.c as nat)
        + seq![46u8] + decimal(e.d as nat) + seq![58u8] + decimal(e.port as nat)
}

/// The endpoint of an address in its usual notation, or nothing where it has none.
pub open spec fn address_text(a: AddressView) -> Seq<char> {
    match endpoint_of(a) {
        Some(e) => ascii_chars(endpoint_text(e)),
        None => Seq::empty(),
    }
}

impl EntityAddr {
    /// The endpoint in its usual notation, or nothing where there is none.
    pub fn endpoint_text(&self) -> (r: String)
        ensures
            r@ == address_text(self@),
    {
        match self.endpoint() {
            None => String::new(),
            Some(e) => {
                let mut out: Vec<u8> = Vec::new();
                push_decimal(&mut out, e.a as u64);
                out.push(46);
                push_decimal(&mut out, e.b as u64);
                out.push(46);
                push_decimal(&mut out, e.c as u64);
                out.push(46);
                push_decimal(&mut out, e.d as u64);
                out.push(58);
                push_decimal(&mut out, e.port as u64);
                assert(out@ =~= endpoint_text(e));
                ascii_string(out)
            },
        }
    }
}

/// Whether two addresses are those of one socket address, whatever their nonces.
pub open spec fn same_endpoint(a: AddressView, b: AddressView) -> bool {
    a.family == b.family && a.socket_data == b.socket_data
}

impl EntityAddrVec {
    pub fn encode(&self, encoder: &mut Encoder)
        requires
            old(encoder).wf(),
        ensures
            final(encoder).wf(),
            final(encoder).limit() == old(encoder).limit(),
            final(encoder)@ == old(encoder)@ + addresses_bytes(self@),
    {
        encoder.u8(2);
        encoder.u32(#[verifier::truncate] (self.0.len() as u32));
        let ghost start = encoder@;
        let ghost all = self@;
        let mut i: usize = 0;
        assert(encoder@ =~= start + concatenated(all.take(0), address_encoder()));
        while i < self.0.len()
            invariant
                i <= self.0@.len(),
                all == self@,
                encoder.wf(),
                encoder.limit() == old(encoder).limit(),
                encoder@ == start + concatenated(all.take(i as int), address_encoder()),
            decreases self.0@.len() - i,
        {
            self.0[i].encode(encoder);
            assert(all.take(i + 1).drop_last() =~= all.take(i as int));
            assert(encoder@ =~= start + concatenated(all.take(i + 1), address_encoder()));
            i = i + 1;
        }
        assert(all.take(i as int) =~= all);
        assert(encoder@ =~= old(encoder)@ + addresses_bytes(self@));
    }

    pub fn decode(decoder: &mut Decoder<'_>, max_addresses: u32) -> (r: Result<Self, WireError>)
        ensures
            r matches Ok(addresses) ==> get_addresses(old(decoder)@, max_addresses) == Ok::<
                (Seq<AddressView>, Input),
                WireError,
            >((addresses@, final(decoder)@)),
            r matches Err(error) ==> get_addresses(old(decoder)@, max_addresses) == Err::<
                (Seq<AddressView>, Input),
                WireError,
            >(error),
            final(decoder)@ == addresses_left(old(decoder)@, max_addresses),
    {
        let marker: u8 = decoder.u8();
        let count: u32 = decoder.u32();
        match decoder.finish() {
            Ok(_) => {},
            Err(error) => {
                return Err(error);
            },
        }
        if marker != 2 {
            return Err(WireError::Malformed);
        }
        if count > max_addresses {
            return Err(WireError::LimitExceeded);
        }
        let ghost start = decoder@;
        let ghost item = address_decoder();
        let mut addresses: Vec<EntityAddr> = Vec::new();
        let mut i: u32 = 0;
        assert(addresses_view(addresses@) =~= Seq::<AddressView>::empty());
        while i < count
            invariant
                i <= count <= max_addresses,
                item == address_decoder(),
                get_addresses(old(decoder)@, max_addresses) == get_many(start, count as nat, item),
                get_many(start, i as nat, item) == Ok::<(Seq<AddressView>, Input), WireError>(
                    (addresses_view(addresses@), decoder@),
                ),
                addresses_left(old(decoder)@, max_addresses) == entries_left(start, count as nat),
                decoder@ == entries_left(start, i as nat),
            decreases count - i,
        {
            let ghost before = addresses_view(addresses@);
            let address = match EntityAddr::decode(decoder) {
                Ok(address) => address,
                Err(error) => {
                    proof {
                        lemma_get_many_error(start, (i + 1) as nat, count as nat, item);
                        lemma_entries_left(start, (i + 1) as nat, count as nat);
                    }
                    return Err(error);
                },
            };
            addresses.push(address);
            assert(addresses_view(addresses@) =~= before.push(address@));
            i = i + 1;
        }
        Ok(EntityAddrVec(addresses))
    }
}

/// Reading an address that was written gives it back.
pub proof fn law_address_reads_back(a: AddressView, tail: Seq<u8>)
    requires
        address_bytes(a).len() <= MAX_ENCODING,
    ensures
        get_address(input(address_bytes(a) + tail)) == Ok::<(AddressView, Input), WireError>(
            (a, input(tail)),
        ),
{
    let payload = address_payload(a);
    assert(address_bytes(a) + tail =~= seq![1u8] + (versioned(1, 1, payload) + tail));
}

/// Reading a list of addresses that was written gives it back.
pub proof fn law_addresses_read_back(s: Seq<AddressView>, max: u32, tail: Seq<u8>)
    requires
        s.len() <= max,
        addresses_bytes(s).len() <= MAX_ENCODING,
    ensures
        get_addresses(input(addresses_bytes(s) + tail), max) == Ok::<
            (Seq<AddressView>, Input),
            WireError,
        >((s, input(tail))),
{
    let encode = address_encoder();
    let decode = address_decoder();
    let items = concatenated(s, encode);
    assert(addresses_bytes(s) + tail =~= seq![2u8] + (le32(s.len() as u32) + (items + tail)));
    assert forall|i: int, rest: Seq<u8>| 0 <= i < s.len() implies #[trigger] decode(
        input(encode(s[i]) + rest),
    ) == Ok::<(AddressView, Input), WireError>((s[i], input(rest))) by {
        lemma_part_is_shorter(s, i);
        law_address_reads_back(s[i], rest);
    }
    law_many(s, encode, decode, tail);
}

proof fn lemma_part_is_shorter(s: Seq<AddressView>, i: int)
    requires
        0 <= i < s.len(),
    ensures
        address_bytes(s[i]).len() <= concatenated(s, address_encoder()).len(),
    decreases s.len(),
{
    if i < s.len() - 1 {
        lemma_part_is_shorter(s.drop_last(), i);
    }
}

// ---------------------------------------------------------------------------
// Views
// ---------------------------------------------------------------------------

/// What stands for a value of this type has its fields.
pub proof fn law_entity_addr_has_its_fields(x: EntityAddr)
    ensures
        x@.kind == x.kind,
        x@.nonce == x.nonce,
        x@.family == x.family,
        x@.socket_data == x.socket_data@,
{
}

/// What stands for a list has what stands for each of its items, in order.
pub proof fn law_addresses_view_keeps_order(s: Seq<EntityAddr>, i: int)
    requires
        0 <= i < s.len(),
    ensures
        addresses_view(s).len() == s.len(),
        addresses_view(s)[i] == s[i]@,
{
}

} // verus!
