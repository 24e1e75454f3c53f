//! From configured monitor seeds to the endpoints of monitors.
//!
//! A [`Resolution`] goes through the seeds in order. It names the next thing that it has to know,
//! which text is an address or what a name resolves to, and takes the answer.

use crate::protocol::address::{
    ipv4_socket, AddressView, Endpoint4, EntityAddr, ADDRESS_MESSENGER_2, FAMILY_IPV4, FAMILY_IPV6,
};
use crate::text::{
    after_prefix, chars_of, contains_char, decimal_value, parse_decimal, split_at_last, split_last,
    string_of, strip_prefix, trim, trimmed,
};
use crate::wire::zeros;
use vstd::prelude::*;

verus! {

/// The port of a monitor where a seed names none.
pub const DEFAULT_MONITOR_V2_PORT: u16 = 3300;

/// An IP address, as a number whose most significant byte is the first.
#[derive(Clone, Copy, Debug, PartialEq, Eq, Structural)]
pub enum Ip {
    V4(u32),
    V6(u128),
}

/// A socket address. The scope is that of a zoned IPv6 address, else zero.
#[derive(Clone, Copy, Debug, PartialEq, Eq, Structural)]
pub enum SocketAddress {
    V4 { bits: u32, port: u16 },
    V6 { bits: u128, port: u16, scope_id: u32 },
}

/// A monitor that can be connected to.
#[derive(Clone, Debug, PartialEq, Eq)]
pub struct Endpoint {
    pub address: SocketAddress,
    pub entity_address: EntityAddr,
    pub priority: u16,
    pub weight: u16,
}

/// What an SRV lookup answers with.
#[derive(Debug, PartialEq, Eq)]
pub struct SrvRecord {
    pub target: String,
    pub port: u16,
    pub priority: u16,
    pub weight: u16,
}

/// How many seeds there may be, and how many addresses they may resolve to.
#[derive(Clone, Copy, Debug, PartialEq, Eq, Structural)]
pub struct SeedLimits {
    pub max_seeds: u32,
    pub max_addresses: u32,
}

/// Why seeds did not resolve. A lookup failed for the reason in `source`.
#[derive(Debug, PartialEq, Eq)]
pub enum SeedError {
    LimitExceeded,
    Malformed(&'static str),
    UnsupportedVersion,
    Lookup { operation: &'static str, name: String, source: String },
}

#[verifier::ext_equal]
pub struct EndpointView {
    pub address: SocketAddress,
    pub entity_address: AddressView,
    pub priority: u16,
    pub weight: u16,
}

#[verifier::ext_equal]
pub struct SrvRecordView {
    pub target: Seq<char>,
    pub port: u16,
    pub priority: u16,
    pub weight: u16,
}

#[verifier::ext_equal]
pub enum SeedErrorView {
    LimitExceeded,
    Malformed(&'static str),
    UnsupportedVersion,
    Lookup { operation: &'static str, name: Seq<char>, source: Seq<char> },
}

impl View for Endpoint {
    type V = EndpointView;

    open spec fn view(&self) -> EndpointView {
        EndpointView {
            address: self.address,
            entity_address: self.entity_address@,
            priority: self.priority,
            weight: self.weight,
        }
    }
}

impl View for SrvRecord {
    type V = SrvRecordView;

    open spec fn view(&self) -> SrvRecordView {
        SrvRecordView {
            target: self.target@,
            port: self.port,
            priority: self.priority,
            weight: self.weight,
        }
    }
}

impl Clone for SrvRecord {
    fn clone(&self) -> (r: Self)
        ensures
            r@ == self@,
    {
        SrvRecord {
            target: self.target.clone(),
            port: self.port,
            priority: self.priority,
            weight: self.weight,
        }
    }
}

impl View for SeedError {
    type V = SeedErrorView;

    open spec fn view(&self) -> SeedErrorView {
        match self {
            SeedError::LimitExceeded => SeedErrorView::LimitExceeded,
            SeedError::Malformed(detail) => SeedErrorView::Malformed(*detail),
            SeedError::UnsupportedVersion => SeedErrorView::UnsupportedVersion,
            SeedError::Lookup { operation, name, source } => SeedErrorView::Lookup {
                operation: *operation,
                name: name@,
                source: source@,
            },
        }
    }
}

impl Clone for SeedError {
    fn clone(&self) -> (r: Self)
        ensures
            r@ == self@,
    {
        match self {
            SeedError::LimitExceeded => SeedError::LimitExceeded,
            SeedError::Malformed(detail) => SeedError::Malformed(*detail),
            SeedError::UnsupportedVersion => SeedError::UnsupportedVersion,
            SeedError::Lookup { operation, name, source } => SeedError::Lookup {
                operation: *operation,
                name: name.clone(),
                source: source.clone(),
            },
        }
    }
}

pub open spec fn endpoints_view(s: Seq<Endpoint>) -> Seq<EndpointView> {
    Seq::new(s.len(), |i: int| s[i]@)
}

pub open spec fn records_view(s: Seq<SrvRecord>) -> Seq<SrvRecordView> {
    Seq::new(s.len(), |i: int| s[i]@)
}

pub open spec fn outcome_view<T>(r: Result<T, SeedError>) -> Result<T, SeedErrorView> {
    match r {
        Ok(value) => Ok(value),
        Err(error) => Err(error@),
    }
}

// ---------------------------------------------------------------------------
// Addresses
// ---------------------------------------------------------------------------

/// The address that an address stands for: an IPv6 address that maps an IPv4 one is that one.
pub open spec fn normalized(ip: Ip) -> Ip {
    match ip {
        Ip::V4(bits) => Ip::V4(bits),
        Ip::V6(bits) => if bits / 0x1_0000_0000 == 0xffff {
            Ip::V4((bits % 0x1_0000_0000) as u32)
        } else {
            Ip::V6(bits)
        },
    }
}

pub fn normalize_ip(ip: Ip) -> (r: Ip)
    ensures
        r == normalized(ip),
{
    match ip {
        Ip::V4(bits) => Ip::V4(bits),
        Ip::V6(bits) => {
            if bits / 0x1_0000_0000 == 0xffff {
                Ip::V4((bits % 0x1_0000_0000) as u32)
            } else {
                Ip::V6(bits)
            }
        },
    }
}

/// Whether an address names no host.
pub open spec fn unspecified(ip: Ip) -> bool {
    ip == Ip::V4(0) || ip == Ip::V6(0)
}

fn is_unspecified(ip: Ip) -> (r: bool)
    ensures
        r == unspecified(ip),
{
    match ip {
        Ip::V4(bits) => bits == 0,
        Ip::V6(bits) => bits == 0,
    }
}

/// A port at an address.
pub open spec fn at_port(ip: Ip, port: u16) -> SocketAddress {
    match ip {
        Ip::V4(bits) => SocketAddress::V4 { bits, port },
        Ip::V6(bits) => SocketAddress::V6 { bits, port, scope_id: 0 },
    }
}

pub fn socket_at(ip: Ip, port: u16) -> (r: SocketAddress)
    ensures
        r == at_port(ip, port),
{
    match ip {
        Ip::V4(bits) => SocketAddress::V4 { bits, port },
        Ip::V6(bits) => SocketAddress::V6 { bits, port, scope_id: 0 },
    }
}

impl SocketAddress {
    pub open spec fn spec_ip(self) -> Ip {
        match self {
            SocketAddress::V4 { bits, .. } => Ip::V4(bits),
            SocketAddress::V6 { bits, .. } => Ip::V6(bits),
        }
    }

    pub open spec fn spec_port(self) -> u16 {
        match self {
            SocketAddress::V4 { port, .. } => port,
            SocketAddress::V6 { port, .. } => port,
        }
    }

    pub fn ip(&self) -> (r: Ip)
        ensures
            r == self.spec_ip(),
    {
        match *self {
            SocketAddress::V4 { bits, .. } => Ip::V4(bits),
            SocketAddress::V6 { bits, .. } => Ip::V6(bits),
        }
    }

    pub fn port(&self) -> (r: u16)
        ensures
            r == self.spec_port(),
    {
        match *self {
            SocketAddress::V4 { port, .. } => port,
            SocketAddress::V6 { port, .. } => port,
        }
    }
}

/// The last `count` bytes of a number, most significant first.
pub open spec fn big_endian(value: nat, count: nat) -> Seq<u8>
    decreases count,
{
    if count == 0 {
        Seq::empty()
    } else {
        big_endian(value / 256, (count - 1) as nat).push((value % 256) as u8)
    }
}

fn push_big_endian(out: &mut Vec<u8>, value: u128, count: u8)
    ensures
        final(out)@ == old(out)@ + big_endian(value as nat, count as nat),
    decreases count,
{
    if count > 0 {
        push_big_endian(out, value / 256, count - 1);
        out.push((value % 256) as u8);
    }
    assert(out@ =~= old(out)@ + big_endian(value as nat, count as nat));
}

fn push_zeros(out: &mut Vec<u8>, count: u8)
    ensures
        final(out)@ == old(out)@ + zeros(count as nat),
    decreases count,
{
    if count > 0 {
        push_zeros(out, count - 1);
        out.push(0);
    }
    assert(out@ =~= old(out)@ + zeros(count as nat));
}

/// The IPv4 endpoint of an address and a port.
pub open spec fn endpoint4(bits: u32, port: u16) -> Endpoint4 {
    Endpoint4 {
        a: (bits / 0x100_0000) as u8,
        b: (bits / 0x1_0000 % 0x100) as u8,
        c: (bits / 0x100 % 0x100) as u8,
        d: (bits % 0x100) as u8,
        port,
    }
}

/// An IPv6 socket address without its family: the port, a zero flow label, the address and a zero
/// scope.
pub open spec fn ipv6_socket(bits: u128, port: u16) -> Seq<u8> {
    big_endian(port as nat, 2) + zeros(4) + big_endian(bits as nat, 16) + zeros(4)
}

/// The messenger address of a socket address.
pub open spec fn entity_of(address: SocketAddress) -> Result<AddressView, SeedErrorView> {
    match address {
        SocketAddress::V4 { bits, port } => Ok(
            AddressView {
                kind: ADDRESS_MESSENGER_2,
                nonce: 0,
                family: FAMILY_IPV4,
                socket_data: ipv4_socket(endpoint4(bits, port)),
            },
        ),
        SocketAddress::V6 { bits, port, scope_id } => if scope_id != 0 {
            Err(SeedErrorView::Malformed("zoned monitor IPv6 is unsupported"))
        } else {
            Ok(
                AddressView {
                    kind: ADDRESS_MESSENGER_2,
                    nonce: 0,
                    family: FAMILY_IPV6,
                    socket_data: ipv6_socket(bits, port),
                },
            )
        },
    }
}

pub fn entity_address(address: SocketAddress) -> (r: Result<EntityAddr, SeedError>)
    ensures
        match r {
            Ok(entity) => entity_of(address) == Ok::<AddressView, SeedErrorView>(entity@),
            Err(error) => entity_of(address) == Err::<AddressView, SeedErrorView>(error@),
        },
{
    match address {
        SocketAddress::V4 { bits, port } => Ok(
            EntityAddr::ipv4_v2(
                Endpoint4 {
                    a: (bits / 0x100_0000) as u8,
                    b: (bits / 0x1_0000 % 0x100) as u8,
                    c: (bits / 0x100 % 0x100) as u8,
                    d: (bits % 0x100) as u8,
                    port,
                },
            ),
        ),
        SocketAddress::V6 { bits, port, scope_id } => {
            if scope_id != 0 {
                return Err(SeedError::Malformed("zoned monitor IPv6 is unsupported"));
            }
            let mut socket_data: Vec<u8> = Vec::new();
            push_big_endian(&mut socket_data, port as u128, 2);
            push_zeros(&mut socket_data, 4);
            push_big_endian(&mut socket_data, bits, 16);
            push_zeros(&mut socket_data, 4);
            assert(socket_data@ =~= ipv6_socket(bits, port));
            Ok(
                EntityAddr {
                    kind: ADDRESS_MESSENGER_2,
                    nonce: 0,
                    family: FAMILY_IPV6,
                    socket_data,
                },
            )
        },
    }
}

// ---------------------------------------------------------------------------
// The notation of seeds
// ---------------------------------------------------------------------------

/// A host as a seed names it.
#[derive(Debug, PartialEq, Eq)]
pub enum Host {
    Address(Ip),
    Name(String),
}

#[verifier::ext_equal]
pub enum HostView {
    Address(Ip),
    Name(Seq<char>),
}

impl View for Host {
    type V = HostView;

    open spec fn view(&self) -> HostView {
        match self {
            Host::Address(ip) => HostView::Address(*ip),
            Host::Name(name) => HostView::Name(name@),
        }
    }
}

/// Whether a text begins with a prefix.
pub open spec fn begins(s: Seq<char>, prefix: &'static str) -> bool {
    after_prefix(s, prefix@) is Some
}

pub fn is_begun(chars: &Vec<char>, prefix: &'static str) -> (r: bool)
    ensures
        r == begins(chars@, prefix),
{
    let prefix = chars_of(prefix);
    match strip_prefix(chars, &prefix) {
        Some(_) => true,
        None => false,
    }
}

/// The part of a seed that says where the monitor is: the seed without the protocol before it and
/// the nonce behind it.
pub open spec fn location(seed: Seq<char>) -> Result<Seq<char>, SeedErrorView> {
    let s = trimmed(seed);
    let rest = match after_prefix(s, "v2:"@) {
        Some(rest) => rest,
        None => s,
    };
    if !begins(s, "v2:") && begins(s, "v1:") {
        Err(SeedErrorView::UnsupportedVersion)
    } else {
        match split_last(rest, '/') {
            None => Ok(rest),
            Some((endpoint, nonce)) => if decimal_value(nonce, u32::MAX as nat) is None {
                Err(SeedErrorView::Malformed("invalid monitor nonce"))
            } else {
                Ok(endpoint)
            },
        }
    }
}

pub fn seed_location(seed: &Vec<char>) -> (r: Result<Vec<char>, SeedError>)
    ensures
        match r {
            Ok(text) => location(seed@) == Ok::<Seq<char>, SeedErrorView>(text@),
            Err(error) => location(seed@) == Err::<Seq<char>, SeedErrorView>(error@),
        },
{
    let chars = trim(seed);
    let current = chars_of("v2:");
    let rest = match strip_prefix(&chars, &current) {
        Some(rest) => rest,
        None => {
            if is_begun(&chars, "v1:") {
                return Err(SeedError::UnsupportedVersion);
            }
            chars
        },
    };
    match split_at_last(&rest, '/') {
        None => Ok(rest),
        Some((endpoint, nonce)) => {
            match parse_decimal(&nonce, u32::MAX) {
                None => Err(SeedError::Malformed("invalid monitor nonce")),
                Some(_) => Ok(endpoint),
            }
        },
    }
}

/// The host and the port of a location. `ip` and `socket` are the address and the socket address
/// that the location is, where it is one.
pub open spec fn host_and_port(
    text: Seq<char>,
    ip: Option<Ip>,
    socket: Option<SocketAddress>,
) -> Result<(HostView, u16), SeedErrorView> {
    if let Some(ip) = ip {
        Ok((HostView::Address(ip), DEFAULT_MONITOR_V2_PORT))
    } else if text.len() > 0 && text[0] == '[' {
        match socket {
            None => Err(SeedErrorView::Malformed("invalid monitor seed")),
            Some(socket) => if socket.spec_port() == 0 {
                Err(SeedErrorView::Malformed("invalid monitor port"))
            } else {
                Ok((HostView::Address(socket.spec_ip()), socket.spec_port()))
            },
        }
    } else {
        match split_last(text, ':') {
            Some((host, port)) => if host.len() == 0 || host.contains(':') {
                Err(SeedErrorView::Malformed("invalid monitor seed"))
            } else {
                match decimal_value(port, u16::MAX as nat) {
                    None => Err(SeedErrorView::Malformed("invalid monitor port")),
                    Some(number) => if number == 0 {
                        Err(SeedErrorView::Malformed("invalid monitor port"))
                    } else {
                        Ok((HostView::Name(host), number as u16))
                    },
                }
            },
            None => if text.len() == 0 {
                Err(SeedErrorView::Malformed("invalid monitor seed"))
            } else {
                Ok((HostView::Name(text), DEFAULT_MONITOR_V2_PORT))
            },
        }
    }
}

/// The host and the port of a seed's location.
pub fn parse_location(text: &str, ip: Option<Ip>, socket: Option<SocketAddress>) -> (r: Result<
    (Host, u16),
    SeedError,
>)
    ensures
        match r {
            Ok((host, port)) => host_and_port(text@, ip, socket) == Ok::<
                (HostView, u16),
                SeedErrorView,
            >((host@, port)),
            Err(error) => host_and_port(text@, ip, socket) == Err::<
                (HostView, u16),
                SeedErrorView,
            >(error@),
        },
{
    if let Some(ip) = ip {
        return Ok((Host::Address(ip), DEFAULT_MONITOR_V2_PORT));
    }
    let chars = chars_of(text);
    if chars.len() > 0 && chars[0] == '[' {
        return match socket {
            None => Err(SeedError::Malformed("invalid monitor seed")),
            Some(socket) => if socket.port() == 0 {
                Err(SeedError::Malformed("invalid monitor port"))
            } else {
                Ok((Host::Address(socket.ip()), socket.port()))
            },
        };
    }
    match split_at_last(&chars, ':') {
        Some((host, port)) => {
            if host.len() == 0 || contains_char(&host, ':') {
                return Err(SeedError::Malformed("invalid monitor seed"));
            }
            match parse_decimal(&port, u16::MAX as u32) {
                None => Err(SeedError::Malformed("invalid monitor port")),
                Some(number) => if number == 0 {
                    Err(SeedError::Malformed("invalid monitor port"))
                } else {
                    Ok((Host::Name(string_of(host)), number as u16))
                },
            }
        },
        None => if chars.len() == 0 {
            Err(SeedError::Malformed("invalid monitor seed"))
        } else {
            Ok((Host::Name(string_of(chars)), DEFAULT_MONITOR_V2_PORT))
        },
    }
}

/// The part of a seed that says where the monitor is: the seed without the protocol before it and
/// the nonce behind it.
pub fn parse_seed(seed: &str) -> (r: Result<String, SeedError>)
    ensures
        match r {
            Ok(text) => location(seed@) == Ok::<Seq<char>, SeedErrorView>(text@),
            Err(error) => location(seed@) == Err::<Seq<char>, SeedErrorView>(error@),
        },
{
    let chars = chars_of(seed);
    match seed_location(&chars) {
        Ok(text) => Ok(string_of(text)),
        Err(error) => Err(error),
    }
}

// ---------------------------------------------------------------------------
// The list of endpoints
// ---------------------------------------------------------------------------

/// Whether a list has an endpoint at an address.
pub open spec fn seen(endpoints: Seq<EndpointView>, address: SocketAddress) -> bool {
    exists|i: int| 0 <= i < endpoints.len() && (#[trigger] endpoints[i]).address == address
}

/// A list after an endpoint was offered to it. It takes one that it does not have, while it has
/// fewer than `max`.
pub open spec fn appended(
    endpoints: Seq<EndpointView>,
    address: SocketAddress,
    priority: u16,
    weight: u16,
    max: nat,
) -> Result<Seq<EndpointView>, SeedErrorView> {
    if seen(endpoints, address) {
        Ok(endpoints)
    } else if endpoints.len() >= max {
        Err(SeedErrorView::LimitExceeded)
    } else {
        match entity_of(address) {
            Err(error) => Err(error),
            Ok(entity_address) => Ok(
                endpoints.push(EndpointView { address, entity_address, priority, weight }),
            ),
        }
    }
}

pub fn append_endpoint(
    address: SocketAddress,
    metadata: (u16, u16),
    maximum: u32,
    endpoints: &mut Vec<Endpoint>,
) -> (r: Result<(), SeedError>)
    ensures
        match r {
            Ok(()) => appended(
                endpoints_view(old(endpoints)@),
                address,
                metadata.0,
                metadata.1,
                maximum as nat,
            ) == Ok::<Seq<EndpointView>, SeedErrorView>(endpoints_view(final(endpoints)@)),
            Err(error) => appended(
                endpoints_view(old(endpoints)@),
                address,
                metadata.0,
                metadata.1,
                maximum as nat,
            ) == Err::<Seq<EndpointView>, SeedErrorView>(error@) && final(endpoints)@ == old(
                endpoints,
            )@,
        },
{
    let ghost before = endpoints_view(endpoints@);
    let mut i: usize = 0;
    while i < endpoints.len()
        invariant
            i <= endpoints@.len(),
            endpoints@ == old(endpoints)@,
            before == endpoints_view(endpoints@),
            forall|j: int| 0 <= j < i ==> (#[trigger] before[j]).address != address,
        decreases endpoints@.len() - i,
    {
        if endpoints[i].address == address {
            assert(before[i as int].address == address);
            return Ok(());
        }
        i = i + 1;
    }
    assert(!seen(before, address));
    if endpoints.len() >= maximum as usize {
        return Err(SeedError::LimitExceeded);
    }
    match entity_address(address) {
        Err(error) => Err(error),
        Ok(entity_address) => {
            endpoints.push(
                Endpoint { address, entity_address, priority: metadata.0, weight: metadata.1 },
            );
            assert(endpoints_view(endpoints@) =~= before.push(endpoints@.last()@));
            Ok(())
        },
    }
}

/// A list after the addresses of a host were offered to it, up to the one that it refused.
pub open spec fn filled(
    endpoints: Seq<EndpointView>,
    addresses: Seq<Ip>,
    port: u16,
    priority: u16,
    weight: u16,
    max: nat,
) -> (Seq<EndpointView>, Result<(), SeedErrorView>)
    decreases addresses.len(),
{
    if addresses.len() == 0 {
        (endpoints, Ok(()))
    } else {
        let (list, outcome) = filled(endpoints, addresses.drop_last(), port, priority, weight, max);
        if outcome is Err || unspecified(addresses.last()) {
            (list, outcome)
        } else {
            match appended(list, at_port(normalized(addresses.last()), port), priority, weight, max) {
                Ok(more) => (more, Ok(())),
                Err(error) => (list, Err(error)),
            }
        }
    }
}

/// What comes of an answer with the addresses of a host.
pub open spec fn resolved(
    endpoints: Seq<EndpointView>,
    addresses: Seq<Ip>,
    port: u16,
    priority: u16,
    weight: u16,
    max: nat,
) -> (Seq<EndpointView>, Result<(), SeedErrorView>) {
    if addresses.len() > max {
        (endpoints, Err(SeedErrorView::LimitExceeded))
    } else {
        filled(endpoints, addresses, port, priority, weight, max)
    }
}

proof fn lemma_filled_error(
    endpoints: Seq<EndpointView>,
    addresses: Seq<Ip>,
    port: u16,
    priority: u16,
    weight: u16,
    max: nat,
    count: int,
)
    requires
        0 <= count <= addresses.len(),
        filled(endpoints, addresses.take(count), port, priority, weight, max).1 is Err,
    ensures
        filled(endpoints, addresses, port, priority, weight, max) == filled(
            endpoints,
            addresses.take(count),
            port,
            priority,
            weight,
            max,
        ),
    decreases addresses.len() - count,
{
    if count < addresses.len() {
        assert(addresses.take(count + 1).drop_last() =~= addresses.take(count));
        lemma_filled_error(endpoints, addresses, port, priority, weight, max, count + 1);
    } else {
        assert(addresses.take(count) =~= addresses);
    }
}

/// Takes the addresses that a host resolved to into the list of endpoints.
pub fn resolve_host(
    addresses: &Vec<Ip>,
    port: u16,
    metadata: (u16, u16),
    maximum: u32,
    endpoints: &mut Vec<Endpoint>,
) -> (r: Result<(), SeedError>)
    ensures
        (endpoints_view(final(endpoints)@), outcome_view(r)) == resolved(
            endpoints_view(old(endpoints)@),
            addresses@,
            port,
            metadata.0,
            metadata.1,
            maximum as nat,
        ),
{
    if addresses.len() > maximum as usize {
        return Err(SeedError::LimitExceeded);
    }
    let ghost before = endpoints_view(endpoints@);
    let (priority, weight) = metadata;
    let ghost max = maximum as nat;
    let mut i: usize = 0;
    assert(addresses@.take(0) =~= Seq::empty());
    while i < addresses.len()
        invariant
            i <= addresses@.len() <= maximum,
            max == maximum,
            priority == metadata.0,
            weight == metadata.1,
            before == endpoints_view(old(endpoints)@),
            filled(before, addresses@.take(i as int), port, priority, weight, max) == (
                endpoints_view(endpoints@),
                Ok::<(), SeedErrorView>(()),
            ),
        decreases addresses@.len() - i,
    {
        let ip = addresses[i];
        assert(addresses@.take(i + 1).drop_last() =~= addresses@.take(i as int));
        assert(addresses@.take(i + 1).last() == ip);
        if !is_unspecified(ip) {
            match append_endpoint(
                socket_at(normalize_ip(ip), port),
                (priority, weight),
                maximum,
                endpoints,
            ) {
                Ok(()) => {},
                Err(error) => {
                    proof {
                        lemma_filled_error(
                            before,
                            addresses@,
                            port,
                            priority,
                            weight,
                            max,
                            i + 1,
                        );
                    }
                    return Err(error);
                },
            }
        }
        i = i + 1;
    }
    assert(addresses@.take(i as int) =~= addresses@);
    Ok(())
}

/// Whether one more may be taken.
pub fn ensure_below_limit(length: usize, maximum: u32) -> (r: Result<(), SeedError>)
    ensures
        outcome_view(r) == if length >= maximum {
            Err::<(), SeedErrorView>(SeedErrorView::LimitExceeded)
        } else {
            Ok(())
        },
{
    if length >= maximum as usize {
        return Err(SeedError::LimitExceeded);
    }
    Ok(())
}

// ---------------------------------------------------------------------------
// Views
// ---------------------------------------------------------------------------

/// What stands for a value of this type has its fields.
pub proof fn law_endpoint_has_its_fields(x: Endpoint)
    ensures
        x@.address == x.address,
        x@.entity_address == x.entity_address@,
        x@.priority == x.priority,
        x@.weight == x.weight,
{
}

/// What stands for a value of this type has its fields.
pub proof fn law_srv_record_has_its_fields(x: SrvRecord)
    ensures
        x@.target == x.target@,
        x@.port == x.port,
        x@.priority == x.priority,
        x@.weight == x.weight,
{
}

/// What stands for a value of this type is its case, with what it holds.
pub proof fn law_seed_error_is_its_case(x: &SeedError)
    ensures
        x@ == (match x {
                SeedError::LimitExceeded => SeedErrorView::LimitExceeded,
                SeedError::Malformed(detail) => SeedErrorView::Malformed(*detail),
                SeedError::UnsupportedVersion => SeedErrorView::UnsupportedVersion,
                SeedError::Lookup { operation, name, source } => SeedErrorView::Lookup {
                    operation: *operation,
                    name: name@,
                    source: source@,
                },
            }),
{
}

/// What stands for a value of this type is its case, with what it holds.
pub proof fn law_host_is_its_case(x: &Host)
    ensures
        x@ == (match x {
                Host::Address(ip) => HostView::Address(*ip),
                Host::Name(name) => HostView::Name(name@),
            }),
{
}

/// What stands for a list has what stands for each of its items, in order.
pub proof fn law_endpoints_view_keeps_order(s: Seq<Endpoint>, i: int)
    requires
        0 <= i < s.len(),
    ensures
        endpoints_view(s).len() == s.len(),
        endpoints_view(s)[i] == s[i]@,
{
}

/// What stands for a list has what stands for each of its items, in order.
pub proof fn law_records_view_keeps_order(s: Seq<SrvRecord>, i: int)
    requires
        0 <= i < s.len(),
    ensures
        records_view(s).len() == s.len(),
        records_view(s)[i] == s[i]@,
{
}

} // verus!
