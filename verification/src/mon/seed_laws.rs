//! What seeds name, and what becomes of it.

use super::resolution::{
    after_parsed, after_records, fresh, proceeded, refusal, ResolutionView, Stage, StepView,
};
use super::seeds::{
    appended, at_port, begins, big_endian, entity_of, filled, host_and_port, ipv6_socket,
    location, normalized, resolved, seen, unspecified, EndpointView, HostView, Ip,
    SeedErrorView, SeedLimits, SocketAddress, SrvRecordView,
};
use crate::text::{after_prefix, decimal_value, last_index, trimmed, undotted};
use vstd::prelude::*;

verus! {

// ---------------------------------------------------------------------------
// Addresses
// ---------------------------------------------------------------------------

/// An IPv4 address that is written as an IPv6 one is that IPv4 address. Any other is what it is.
pub proof fn law_mapped_addresses_are_unwrapped(bits4: u32, bits6: u128)
    ensures
        normalized(Ip::V4(bits4)) == Ip::V4(bits4),
        normalized(Ip::V6((0xffff_0000_0000 + bits4) as u128)) == Ip::V4(bits4),
        bits6 < 0xffff_0000_0000 || bits6 > 0xffff_ffff_ffff ==> normalized(Ip::V6(bits6))
            == Ip::V6(bits6),
        unspecified(Ip::V4(bits4)) <==> bits4 == 0,
        unspecified(Ip::V6(bits6)) <==> bits6 == 0,
{
    assert((0xffff_0000_0000 + bits4) / 0x1_0000_0000 == 0xffff);
    assert((0xffff_0000_0000 + bits4) % 0x1_0000_0000 == bits4);
}

/// An address at a port is that address at that port.
pub proof fn law_socket_is_address_and_port(ip: Ip, port: u16)
    ensures
        at_port(ip, port).spec_ip() == ip,
        at_port(ip, port).spec_port() == port,
        at_port(ip, port) matches SocketAddress::V6 { scope_id, .. } ==> scope_id == 0,
{
}

/// The number whose bytes these are, most significant first.
pub open spec fn big_endian_value(b: Seq<u8>) -> nat
    decreases b.len(),
{
    if b.len() == 0 {
        0
    } else {
        big_endian_value(b.drop_last()) * 256 + b.last() as nat
    }
}

/// Numbers are written most significant byte first, in as many bytes as given.
pub proof fn law_big_endian_reads_back(value: nat, count: nat)
    ensures
        big_endian(value, count).len() == count,
        value < vstd::arithmetic::power::pow(256, count) ==> big_endian_value(
            big_endian(value, count),
        ) == value,
    decreases count,
{
    if count == 0 {
        vstd::arithmetic::power::lemma_pow0(256);
    } else {
        law_big_endian_reads_back(value / 256, (count - 1) as nat);
        vstd::arithmetic::power::lemma_pow1(256);
        vstd::arithmetic::power::lemma_pow_adds(256, 1, (count - 1) as nat);
        let p = vstd::arithmetic::power::pow(256, (count - 1) as nat);
        assert(vstd::arithmetic::power::pow(256, count) == 256 * p);
        if value < 256 * p {
            assert(value / 256 < p) by (nonlinear_arith)
                requires
                    value < 256 * p,
            ;
        }
        assert(big_endian(value, count).drop_last() =~= big_endian(
            value / 256,
            (count - 1) as nat,
        ));
        assert((value / 256) * 256 + value % 256 == value);
    }
}

/// The address of a monitor is one of the second messenger, without a nonce: of its family, with the
/// port and the address most significant byte first. One with a zone has none.
pub proof fn law_monitor_address_layout(bits4: u32, bits6: u128, port: u16, scope_id: u32)
    ensures
        entity_of(SocketAddress::V4 { bits: bits4, port }) matches Ok(a) && {
            let b = a.socket_data;
            &&& a.kind == 2
            &&& a.nonce == 0
            &&& a.family == 2
            &&& b.len() == 14
            &&& b[0] * 256 + b[1] == port
            &&& b[2] * 0x100_0000 + b[3] * 0x1_0000 + b[4] * 0x100 + b[5] == bits4
        },
        entity_of(SocketAddress::V6 { bits: bits6, port, scope_id: 0 }) matches Ok(a) && {
            let b = a.socket_data;
            &&& a.kind == 2
            &&& a.nonce == 0
            &&& a.family == 10
            &&& b.len() == 26
            &&& b.subrange(0, 2) == big_endian(port as nat, 2)
            &&& b.subrange(6, 22) == big_endian(bits6 as nat, 16)
            &&& forall|i: int| 2 <= i < 6 || 22 <= i < 26 ==> #[trigger] b[i] == 0
        },
        scope_id != 0 ==> entity_of(SocketAddress::V6 { bits: bits6, port, scope_id }) is Err,
{
    law_big_endian_reads_back(port as nat, 2);
    law_big_endian_reads_back(bits6 as nat, 16);
    let b = ipv6_socket(bits6, port);
    assert(b.subrange(0, 2) =~= big_endian(port as nat, 2));
    assert(b.subrange(6, 22) =~= big_endian(bits6 as nat, 16));
}

// ---------------------------------------------------------------------------
// Seeds
// ---------------------------------------------------------------------------

proof fn lemma_last_index(head: Seq<char>, tail: Seq<char>, c: char)
    requires
        !tail.contains(c),
    ensures
        last_index(head.push(c) + tail, c) == Some(head.len() as int),
    decreases tail.len(),
{
    let all = head.push(c) + tail;
    if tail.len() == 0 {
        assert(all =~= head.push(c));
    } else {
        let shorter = tail.drop_last();
        assert(all.drop_last() =~= head.push(c) + shorter);
        assert(tail[tail.len() - 1] == tail.last());
        assert(tail.contains(tail.last()));
        assert(all.last() == tail.last());
        assert forall|x: char| shorter.contains(x) implies tail.contains(x) by {
            let k = choose|k: int| 0 <= k < shorter.len() && shorter[k] == x;
            assert(tail[k] == x);
        }
        lemma_last_index(head, shorter, c);
    }
}

proof fn lemma_no_index(s: Seq<char>, c: char)
    requires
        !s.contains(c),
    ensures
        last_index(s, c) is None,
    decreases s.len(),
{
    if s.len() > 0 {
        let shorter = s.drop_last();
        assert(s[s.len() - 1] == s.last());
        assert(s.contains(s.last()));
        assert forall|x: char| shorter.contains(x) implies s.contains(x) by {
            let k = choose|k: int| 0 <= k < shorter.len() && shorter[k] == x;
            assert(s[k] == x);
        }
        lemma_no_index(shorter, c);
    }
}

/// A seed that is an address is that address, at the port of monitors. A name with a port is that
/// name at that port, and a name without one is at the port of monitors. An address in brackets has
/// its port beside it. No port is zero.
pub proof fn law_seed_names_host_and_port(
    ip: Ip,
    socket: SocketAddress,
    host: Seq<char>,
    port: Seq<char>,
    text: Seq<char>,
)
    requires
        host.len() > 0,
        !host.contains(':'),
        host[0] != '[',
        !port.contains(':'),
    ensures
        host_and_port(text, Some(ip), None) == Ok::<(HostView, u16), SeedErrorView>(
            (HostView::Address(ip), 3300u16),
        ),
        host_and_port(text, Some(ip), Some(socket)) == Ok::<(HostView, u16), SeedErrorView>(
            (HostView::Address(ip), 3300u16),
        ),
        host_and_port(host, None, Some(socket)) == Ok::<(HostView, u16), SeedErrorView>(
            (HostView::Name(host), 3300u16),
        ),
        decimal_value(port, 65535) matches Some(n) ==> (n > 0 ==> host_and_port(
            host.push(':') + port,
            None,
            Some(socket),
        ) == Ok::<(HostView, u16), SeedErrorView>((HostView::Name(host), n as u16))),
        decimal_value(port, 65535) is None || decimal_value(port, 65535) == Some(0nat)
            ==> host_and_port(host.push(':') + port, None, Some(socket)) is Err,
        text.len() > 0 && text[0] == '[' && socket.spec_port() > 0 ==> host_and_port(
            text,
            None,
            Some(socket),
        ) == Ok::<(HostView, u16), SeedErrorView>(
            (HostView::Address(socket.spec_ip()), socket.spec_port()),
        ),
        text.len() > 0 && text[0] == '[' && socket.spec_port() == 0 ==> host_and_port(
            text,
            None,
            Some(socket),
        ) is Err,
        text.len() == 0 ==> host_and_port(text, None, Some(socket)) is Err,
{
    lemma_no_index(host, ':');
    lemma_last_index(host, port, ':');
    let all = host.push(':') + port;
    assert(all.take(host.len() as int) =~= host);
    assert(all.skip((host.len() + 1) as int) =~= port);
    if text.len() == 0 {
        assert(!text.contains(':'));
        lemma_no_index(text, ':');
    }
}

/// A seed of the first messenger is refused. The mark of the second is taken off, and so is a nonce,
/// which must be a number. What is left is where the monitor is.
pub proof fn law_seed_is_a_location(seed: Seq<char>, place: Seq<char>, nonce: Seq<char>)
    requires
        !nonce.contains('/'),
        !begins(place, "v1:"),
        !begins(place, "v2:"),
    ensures
        begins(trimmed(seed), "v1:") && !begins(trimmed(seed), "v2:") ==> location(seed) == Err::<
            Seq<char>,
            SeedErrorView,
        >(SeedErrorView::UnsupportedVersion),
        trimmed(seed) == place && !place.contains('/') ==> location(seed) == Ok::<
            Seq<char>,
            SeedErrorView,
        >(place),
        trimmed(seed) == "v2:"@ + place && !place.contains('/') ==> location(seed) == Ok::<
            Seq<char>,
            SeedErrorView,
        >(place),
        trimmed(seed) == "v2:"@ + (place.push('/') + nonce) && decimal_value(nonce, 0xffff_ffff)
            is Some ==> location(seed) == Ok::<Seq<char>, SeedErrorView>(place),
        trimmed(seed) == "v2:"@ + (place.push('/') + nonce) && decimal_value(nonce, 0xffff_ffff)
            is None ==> location(seed) is Err,
{
    if !place.contains('/') {
        lemma_no_index(place, '/');
        let marked = "v2:"@ + place;
        assert(marked.take("v2:"@.len() as int) =~= "v2:"@);
        assert(marked.skip("v2:"@.len() as int) =~= place);
    }
    lemma_last_index(place, nonce, '/');
    let rest = place.push('/') + nonce;
    let marked = "v2:"@ + rest;
    assert(marked.take("v2:"@.len() as int) =~= "v2:"@);
    assert(marked.skip("v2:"@.len() as int) =~= rest);
    assert(rest.take(place.len() as int) =~= place);
    assert(rest.skip((place.len() + 1) as int) =~= nonce);
}

/// An endpoint that is not there yet is added last, with its priority and weight, as long as there
/// is room. One that is there stays as it is.
pub proof fn law_endpoints_are_added_once(
    endpoints: Seq<EndpointView>,
    address: SocketAddress,
    priority: u16,
    weight: u16,
    max: nat,
)
    ensures
        seen(endpoints, address) ==> appended(endpoints, address, priority, weight, max) == Ok::<
            Seq<EndpointView>,
            SeedErrorView,
        >(endpoints),
        !seen(endpoints, address) && endpoints.len() >= max ==> appended(
            endpoints,
            address,
            priority,
            weight,
            max,
        ) == Err::<Seq<EndpointView>, SeedErrorView>(SeedErrorView::LimitExceeded),
        !seen(endpoints, address) && endpoints.len() < max && entity_of(address) is Ok ==> (
        appended(endpoints, address, priority, weight, max) matches Ok(after) && {
            &&& after.len() == endpoints.len() + 1
            &&& after.drop_last() == endpoints
            &&& after.last().address == address
            &&& after.last().entity_address == entity_of(address)->Ok_0
            &&& after.last().priority == priority
            &&& after.last().weight == weight
        }),
{
    if !seen(endpoints, address) && endpoints.len() < max && entity_of(address) is Ok {
        let after = appended(endpoints, address, priority, weight, max)->Ok_0;
        assert(after.drop_last() =~= endpoints);
    }
}

/// What is added for the addresses of a host is at its port, with its priority and weight, and is one
/// of the addresses. The unspecified address is passed over.
pub proof fn law_host_is_reached_at_its_port(
    endpoints: Seq<EndpointView>,
    addresses: Seq<Ip>,
    port: u16,
    priority: u16,
    weight: u16,
    max: nat,
    i: int,
)
    requires
        endpoints.len() <= i < resolved(
            endpoints,
            addresses,
            port,
            priority,
            weight,
            max,
        ).0.len(),
    ensures
        ({
            let e = resolved(endpoints, addresses, port, priority, weight, max).0[i];
            &&& e.address.spec_port() == port
            &&& e.priority == priority
            &&& e.weight == weight
            &&& exists|k: int|
                0 <= k < addresses.len() && !unspecified(#[trigger] addresses[k])
                    && e.address.spec_ip() == normalized(addresses[k])
        }),
        addresses.len() <= max,
    decreases addresses.len(),
{
    if addresses.len() <= max {
        lemma_filled(endpoints, addresses, port, priority, weight, max, i);
    }
}

proof fn lemma_filled(
    endpoints: Seq<EndpointView>,
    addresses: Seq<Ip>,
    port: u16,
    priority: u16,
    weight: u16,
    max: nat,
    i: int,
)
    requires
        endpoints.len() <= i < filled(endpoints, addresses, port, priority, weight, max).0.len(),
    ensures
        ({
            let e = filled(endpoints, addresses, port, priority, weight, max).0[i];
            &&& e.address.spec_port() == port
            &&& e.priority == priority
            &&& e.weight == weight
            &&& exists|k: int|
                0 <= k < addresses.len() && !unspecified(#[trigger] addresses[k])
                    && e.address.spec_ip() == normalized(addresses[k])
        }),
    decreases addresses.len(),
{
    if addresses.len() > 0 {
        let shorter = addresses.drop_last();
        let (list, outcome) = filled(endpoints, shorter, port, priority, weight, max);
        let last = addresses.last();
        if i < list.len() {
            lemma_filled(endpoints, shorter, port, priority, weight, max, i);
            let e = list[i];
            let k = choose|k: int|
                0 <= k < shorter.len() && !unspecified(#[trigger] shorter[k])
                    && e.address.spec_ip() == normalized(shorter[k]);
            assert(addresses[k] == shorter[k]);
        } else {
            assert(last == addresses[addresses.len() - 1]);
            assert(!unspecified(addresses[addresses.len() - 1]));
        }
    }
}

// ---------------------------------------------------------------------------
// Resolution
// ---------------------------------------------------------------------------

/// Seeds are resolved if there are any, no more than allowed, and not all of the first messenger.
pub proof fn law_seeds_are_limited(seeds: Seq<Seq<char>>, limits: SeedLimits, i: int)
    ensures
        seeds.len() == 0 || seeds.len() > limits.max_seeds || limits.max_addresses == 0 ==> refusal(
            seeds,
            limits,
        ) == Some(SeedErrorView::LimitExceeded),
        0 < seeds.len() <= limits.max_seeds && limits.max_addresses > 0 && 0 <= i < seeds.len()
            && !begins(trimmed(seeds[i]), "v1:") ==> refusal(seeds, limits) is None,
        0 < seeds.len() <= limits.max_seeds && limits.max_addresses > 0 && (forall|k: int|
            0 <= k < seeds.len() ==> begins(trimmed(#[trigger] seeds[k]), "v1:")) ==> refusal(
            seeds,
            limits,
        ) == Some(SeedErrorView::UnsupportedVersion),
        fresh(seeds, limits).seeds == seeds,
        fresh(seeds, limits).limits == limits,
        fresh(seeds, limits).next == 0 && fresh(seeds, limits).endpoints.len() == 0,
{
    if 0 <= i < seeds.len() && !begins(trimmed(seeds[i]), "v1:") {
        assert(!begins(trimmed(seeds[i]), "v1:"));
    }
}

/// What is asked next: for the address of the next record, by its name without a last dot, to be
/// reached at its port with its priority and weight; or, when there is no record left, for what the
/// next seed names: the records of a service, or where it is. Seeds of the first messenger are passed
/// over.
pub proof fn law_records_and_seeds_are_taken_in_turn(s: ResolutionView)
    requires
        0 <= s.next <= s.seeds.len(),
        0 <= s.record <= s.records.len(),
    ensures
        s.record < s.records.len() ==> {
            let record = s.records[s.record];
            &&& proceeded(s).1 == (StepView::LookupIp { host: undotted(record.target) })
            &&& proceeded(s).0.record == s.record + 1
            &&& proceeded(s).0.next == s.next
            &&& proceeded(s).0.stage == (Stage::Address {
                port: record.port,
                priority: record.priority,
                weight: record.weight,
            })
        },
        s.record == s.records.len() && s.next < s.seeds.len() ==> {
            let seed = trimmed(s.seeds[s.next]);
            let after = ResolutionView { next: s.next + 1, ..s };
            &&& begins(seed, "v1:") ==> proceeded(s) == proceeded(after)
            &&& !begins(seed, "v1:") && after_prefix(seed, "dns-srv:"@) is Some && undotted(
                after_prefix(seed, "dns-srv:"@)->0,
            ).len() > 0 ==> proceeded(s).1 == (StepView::LookupSrv {
                name: undotted(after_prefix(seed, "dns-srv:"@)->0),
            }) && proceeded(s).0.stage == Stage::Service
            &&& !begins(seed, "v1:") && after_prefix(seed, "dns-srv:"@) is None && location(seed)
                is Ok ==> proceeded(s).1 == (StepView::Parse { text: location(seed)->Ok_0 })
                && proceeded(s).0.stage == Stage::Location
        },
        s.record == s.records.len() && s.next == s.seeds.len() ==> {
            &&& proceeded(s).0.stage == Stage::Ended
            &&& s.endpoints.len() > 0 ==> proceeded(s).1 == StepView::Done(Ok(()))
            &&& s.endpoints.len() == 0 && s.failure is Some ==> proceeded(s).1 == StepView::Done(
                Err(s.failure->0),
            )
            &&& s.endpoints.len() == 0 && s.failure is None ==> (proceeded(s).1 matches StepView::Done(
                Err(_),
            ))
        },
{
}

/// A name that a seed gives is looked up at the seed's port, without a priority or a weight. The
/// records of a service are taken as they came, unless there are too many.
pub proof fn law_names_are_looked_up(s: ResolutionView, records: Seq<SrvRecordView>)
    ensures
        s.stage matches Stage::Host { port } ==> after_parsed(s, None, None).1 == (
        StepView::LookupIp { host: s.text }) && after_parsed(s, None, None).0.stage == (
        Stage::Address { port, priority: 0, weight: 0 }),
        records.len() > s.limits.max_addresses ==> after_records(s, Ok(records)).1
            == StepView::Done(Err(SeedErrorView::LimitExceeded)),
        records.len() <= s.limits.max_addresses ==> after_records(s, Ok(records)) == proceeded(
            ResolutionView { records, record: 0, ..s },
        ),
{
}

/// A last dot of a name is not part of it.
pub proof fn law_last_dot_is_dropped(name: Seq<char>)
    ensures
        undotted(name.push('.')) == name,
        name.len() > 0 && name[name.len() - 1] != '.' ==> undotted(name) == name,
        name.len() == 0 ==> undotted(name) == name,
{
    assert(name.push('.').drop_last() =~= name);
}

} // verus!
