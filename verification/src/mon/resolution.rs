//! Going through monitor seeds.
//!
//! A [`Resolution`] goes through the seeds in order. It names the next thing that it has to know,
//! which address a text is or what a name resolves to, and takes the answer.

use crate::mon::seeds::{
    DEFAULT_MONITOR_V2_PORT,
    append_endpoint, appended, at_port, begins, endpoints_view, entity_of, filled, host_and_port,
    is_begun, location, normalize_ip, normalized, outcome_view, parse_location, records_view,
    resolve_host, resolved, seed_location, seen, socket_at, unspecified, Endpoint, EndpointView,
    Host, HostView, Ip, SeedError, SeedErrorView, SeedLimits, SocketAddress, SrvRecord,
    SrvRecordView,
};
use crate::protocol::address::AddressView;
use crate::sorting::texts_view;
use crate::text::{
    after_prefix, chars_of, string_of, strip_dot, strip_prefix, trim, trimmed, undotted,
};
use vstd::prelude::*;

verus! {

/// What a resolution waits for: what the location of a seed is, what its host is, the records of a
/// service, or the addresses of a host.
#[derive(Clone, Copy, Debug, PartialEq, Eq, Structural)]
pub enum Stage {
    Ready,
    Location,
    Host { port: u16 },
    Service,
    Address { port: u16, priority: u16, weight: u16 },
    Ended,
}

/// What a resolution has to know next: which address or socket address a text is, the records of a
/// service, or the addresses of a host. At the end, whether it found endpoints.
#[derive(Debug, PartialEq, Eq)]
pub enum Step {
    Parse { text: String },
    LookupSrv { name: String },
    LookupIp { host: String },
    Done(Result<(), SeedError>),
}

/// The state of a resolution. Of the seeds, those before `next` have been taken, and of the records
/// of the service that was looked up last, those before `record`. `failure` is the last lookup
/// that failed.
#[derive(Debug)]
pub struct Resolution {
    pub seeds: Vec<String>,
    pub limits: SeedLimits,
    pub next: usize,
    pub stage: Stage,
    pub text: String,
    pub records: Vec<SrvRecord>,
    pub record: usize,
    pub endpoints: Vec<Endpoint>,
    pub failure: Option<SeedError>,
}

#[verifier::ext_equal]
pub enum StepView {
    Parse { text: Seq<char> },
    LookupSrv { name: Seq<char> },
    LookupIp { host: Seq<char> },
    Done(Result<(), SeedErrorView>),
}

impl View for Step {
    type V = StepView;

    open spec fn view(&self) -> StepView {
        match self {
            Step::Parse { text } => StepView::Parse { text: text@ },
            Step::LookupSrv { name } => StepView::LookupSrv { name: name@ },
            Step::LookupIp { host } => StepView::LookupIp { host: host@ },
            Step::Done(result) => StepView::Done(outcome_view(*result)),
        }
    }
}

#[verifier::ext_equal]
pub struct ResolutionView {
    pub seeds: Seq<Seq<char>>,
    pub limits: SeedLimits,
    pub next: int,
    pub stage: Stage,
    pub text: Seq<char>,
    pub records: Seq<SrvRecordView>,
    pub record: int,
    pub endpoints: Seq<EndpointView>,
    pub failure: Option<SeedErrorView>,
}

pub open spec fn failure_view(failure: Option<SeedError>) -> Option<SeedErrorView> {
    match failure {
        Some(error) => Some(error@),
        None => None,
    }
}

impl View for Resolution {
    type V = ResolutionView;

    open spec fn view(&self) -> ResolutionView {
        ResolutionView {
            seeds: texts_view(self.seeds@),
            limits: self.limits,
            next: self.next as int,
            stage: self.stage,
            text: self.text@,
            records: records_view(self.records@),
            record: self.record as int,
            endpoints: endpoints_view(self.endpoints@),
            failure: failure_view(self.failure),
        }
    }
}

// ---------------------------------------------------------------------------
// The steps
// ---------------------------------------------------------------------------

/// The state and the step at the end.
pub open spec fn ended(s: ResolutionView, result: Result<(), SeedErrorView>) -> (
    ResolutionView,
    StepView,
) {
    (ResolutionView { stage: Stage::Ended, ..s }, StepView::Done(result))
}

/// How a resolution ends that has gone through all seeds.
pub open spec fn conclusion(s: ResolutionView) -> Result<(), SeedErrorView> {
    if s.endpoints.len() > 0 {
        Ok(())
    } else {
        match s.failure {
            Some(error) => Err(error),
            None => Err(SeedErrorView::Malformed("monitor seeds resolved to no addresses")),
        }
    }
}

/// The next record of a service, else the next seed that is not of the first messenger protocol,
/// else the end.
pub open spec fn proceeded(s: ResolutionView) -> (ResolutionView, StepView)
    decreases s.seeds.len() - s.next,
{
    if 0 <= s.record < s.records.len() {
        let record = s.records[s.record];
        (
            ResolutionView {
                record: s.record + 1,
                stage: Stage::Address {
                    port: record.port,
                    priority: record.priority,
                    weight: record.weight,
                },
                ..s
            },
            StepView::LookupIp { host: undotted(record.target) },
        )
    } else if 0 <= s.next < s.seeds.len() {
        let seed = trimmed(s.seeds[s.next]);
        let after = ResolutionView { next: s.next + 1, ..s };
        if begins(seed, "v1:") {
            proceeded(after)
        } else {
            match after_prefix(seed, "dns-srv:"@) {
                Some(name) => if undotted(name).len() == 0 {
                    ended(after, Err(SeedErrorView::Malformed("empty monitor SRV name")))
                } else {
                    (
                        ResolutionView { stage: Stage::Service, ..after },
                        StepView::LookupSrv { name: undotted(name) },
                    )
                },
                None => match location(seed) {
                    Err(error) => ended(after, Err(error)),
                    Ok(text) => (
                        ResolutionView { stage: Stage::Location, text, ..after },
                        StepView::Parse { text },
                    ),
                },
            }
        }
    } else {
        ended(s, conclusion(s))
    }
}

/// The next step after an address was found without a lookup.
pub open spec fn found(s: ResolutionView, ip: Ip, port: u16) -> (ResolutionView, StepView) {
    match appended(
        s.endpoints,
        at_port(normalized(ip), port),
        0,
        0,
        s.limits.max_addresses as nat,
    ) {
        Err(error) => ended(s, Err(error)),
        Ok(endpoints) => proceeded(ResolutionView { endpoints, ..s }),
    }
}

/// The next step after the answer which address and which socket address a text is.
pub open spec fn after_parsed(
    s: ResolutionView,
    ip: Option<Ip>,
    socket: Option<SocketAddress>,
) -> (ResolutionView, StepView) {
    match s.stage {
        Stage::Host { port } => match ip {
            Some(ip) => found(s, ip, port),
            None => (
                ResolutionView { stage: Stage::Address { port, priority: 0, weight: 0 }, ..s },
                StepView::LookupIp { host: s.text },
            ),
        },
        _ => match host_and_port(s.text, ip, socket) {
            Err(error) => ended(s, Err(error)),
            Ok((HostView::Address(ip), port)) => found(s, ip, port),
            Ok((HostView::Name(host), port)) => (
                ResolutionView { stage: Stage::Host { port }, text: host, ..s },
                StepView::Parse { text: host },
            ),
        },
    }
}

/// The next step after a lookup failed: the failure of a lookup is remembered, any other error is
/// final.
pub open spec fn failed(s: ResolutionView, error: SeedErrorView) -> (ResolutionView, StepView) {
    if error is Lookup {
        proceeded(ResolutionView { failure: Some(error), ..s })
    } else {
        ended(s, Err(error))
    }
}

/// The next step after the answer to a lookup of a service.
pub open spec fn after_records(
    s: ResolutionView,
    answer: Result<Seq<SrvRecordView>, SeedErrorView>,
) -> (ResolutionView, StepView) {
    match answer {
        Err(error) => failed(s, error),
        Ok(records) => if records.len() > s.limits.max_addresses {
            ended(s, Err(SeedErrorView::LimitExceeded))
        } else {
            proceeded(ResolutionView { records, record: 0, ..s })
        },
    }
}

/// The next step after the answer to a lookup of a host.
pub open spec fn after_addresses(
    s: ResolutionView,
    answer: Result<Seq<Ip>, SeedErrorView>,
) -> (ResolutionView, StepView) {
    match s.stage {
        Stage::Address { port, priority, weight } => match answer {
            Err(error) => failed(s, error),
            Ok(addresses) => {
                let (endpoints, outcome) = resolved(
                    s.endpoints,
                    addresses,
                    port,
                    priority,
                    weight,
                    s.limits.max_addresses as nat,
                );
                let after = ResolutionView { endpoints, ..s };
                match outcome {
                    Ok(_) => proceeded(after),
                    Err(error) => failed(after, error),
                }
            },
        },
        _ => ended(s, Ok(())),
    }
}

/// Why seeds are refused at once.
pub open spec fn refusal(seeds: Seq<Seq<char>>, limits: SeedLimits) -> Option<SeedErrorView> {
    if seeds.len() == 0 || limits.max_seeds == 0 || limits.max_addresses == 0 || seeds.len()
        > limits.max_seeds {
        Some(SeedErrorView::LimitExceeded)
    } else if forall|i: int| 0 <= i < seeds.len() ==> begins(trimmed(#[trigger] seeds[i]), "v1:") {
        Some(SeedErrorView::UnsupportedVersion)
    } else {
        None
    }
}

/// The state before the first seed.
pub open spec fn fresh(seeds: Seq<Seq<char>>, limits: SeedLimits) -> ResolutionView {
    ResolutionView {
        seeds,
        limits,
        next: 0,
        stage: Stage::Ready,
        text: Seq::empty(),
        records: Seq::empty(),
        record: 0,
        endpoints: Seq::empty(),
        failure: None,
    }
}

impl Resolution {
    pub open spec fn wf(self) -> bool {
        self.next <= self.seeds@.len() && self.record <= self.records@.len()
    }

    /// Takes seeds, unless there are none, too many, or none of the second messenger protocol.
    pub fn new(seeds: Vec<String>, limits: SeedLimits) -> (r: Result<Self, SeedError>)
        ensures
            match r {
                Ok(resolution) => refusal(texts_view(seeds@), limits) is None && resolution@
                    == fresh(texts_view(seeds@), limits) && resolution.wf(),
                Err(error) => refusal(texts_view(seeds@), limits) == Some(error@),
            },
    {
        if seeds.len() == 0 || limits.max_seeds == 0 || limits.max_addresses == 0 || seeds.len()
            > limits.max_seeds as usize {
            return Err(SeedError::LimitExceeded);
        }
        let ghost all = texts_view(seeds@);
        let mut i: usize = 0;
        let mut usable: bool = false;
        while i < seeds.len()
            invariant
                i <= seeds@.len(),
                all == texts_view(seeds@),
                usable <==> exists|j: int|
                    0 <= j < i && !begins(trimmed(#[trigger] all[j]), "v1:"),
            decreases seeds@.len() - i,
        {
            let chars = chars_of(seeds[i].as_str());
            let seed = trim(&chars);
            assert(seed@ == trimmed(all[i as int]));
            if !is_begun(&seed, "v1:") {
                usable = true;
            }
            i = i + 1;
        }
        if !usable {
            return Err(SeedError::UnsupportedVersion);
        }
        let resolution = Resolution {
            seeds,
            limits,
            next: 0,
            stage: Stage::Ready,
            text: String::new(),
            records: Vec::new(),
            record: 0,
            endpoints: Vec::new(),
            failure: None,
        };
        assert(resolution@ =~= fresh(all, limits));
        Ok(resolution)
    }

    fn end(&mut self, result: Result<(), SeedError>) -> (r: Step)
        requires
            old(self).wf(),
        ensures
            final(self).wf(),
            (final(self)@, r@) == ended(old(self)@, outcome_view(result)),
    {
        self.stage = Stage::Ended;
        assert(self@ =~= (ResolutionView { stage: Stage::Ended, ..old(self)@ }));
        Step::Done(result)
    }

    fn conclude(&mut self) -> (r: Step)
        requires
            old(self).wf(),
        ensures
            final(self).wf(),
            (final(self)@, r@) == ended(old(self)@, conclusion(old(self)@)),
    {
        let result = if self.endpoints.len() > 0 {
            Ok(())
        } else {
            match &self.failure {
                Some(error) => Err(error.clone()),
                None => Err(SeedError::Malformed("monitor seeds resolved to no addresses")),
            }
        };
        self.end(result)
    }

    /// Takes a seed that is not of the first messenger protocol.
    fn take_seed(&mut self, seed: &Vec<char>) -> (r: Step)
        requires
            old(self).wf(),
            0 < old(self).next,
            !begins(seed@, "v1:"),
            seed@ == trimmed(old(self)@.seeds[old(self).next - 1]),
            old(self).record == old(self).records@.len(),
        ensures
            final(self).wf(),
            (final(self)@, r@) == proceeded(
                ResolutionView { next: old(self)@.next - 1, ..old(self)@ },
            ),
    {
        let ghost before = ResolutionView { next: old(self)@.next - 1, ..old(self)@ };
        assert((ResolutionView { next: before.next + 1, ..before }) =~= old(self)@);
        let prefix = chars_of("dns-srv:");
        if let Some(name) = strip_prefix(seed, &prefix) {
            let name = strip_dot(name);
            if name.len() == 0 {
                return self.end(Err(SeedError::Malformed("empty monitor SRV name")));
            }
            self.stage = Stage::Service;
            assert(self@ =~= (ResolutionView { stage: Stage::Service, ..old(self)@ }));
            return Step::LookupSrv { name: string_of(name) };
        }
        match seed_location(seed) {
            Err(error) => self.end(Err(error)),
            Ok(text) => {
                self.stage = Stage::Location;
                self.text = string_of(text);
                let text = self.text.clone();
                assert(self@ =~= (ResolutionView {
                    stage: Stage::Location,
                    text: text@,
                    ..old(self)@
                }));
                Step::Parse { text }
            },
        }
    }

    /// The next thing to know, once what was asked for last is settled.
    fn proceed(&mut self) -> (r: Step)
        requires
            old(self).wf(),
        ensures
            final(self).wf(),
            (final(self)@, r@) == proceeded(old(self)@),
    {
        if self.record < self.records.len() {
            let record = self.records[self.record].clone();
            let host = strip_dot(chars_of(record.target.as_str()));
            self.record = self.record + 1;
            self.stage = Stage::Address {
                port: record.port,
                priority: record.priority,
                weight: record.weight,
            };
            assert(self@ =~= proceeded(old(self)@).0);
            return Step::LookupIp { host: string_of(host) };
        }
        let ghost before = self@;
        while self.next < self.seeds.len()
            invariant
                self.wf(),
                self.record == self.records@.len(),
                proceeded(before) == proceeded(self@),
                before == old(self)@,
            decreases self.seeds@.len() - self.next,
        {
            let chars = chars_of(self.seeds[self.next].as_str());
            let seed = trim(&chars);
            let ghost held = self@;
            self.next = self.next + 1;
            assert(self@ =~= (ResolutionView { next: held.next + 1, ..held }));
            assert(held =~= (ResolutionView { next: self@.next - 1, ..self@ }));
            if !is_begun(&seed, "v1:") {
                return self.take_seed(&seed);
            }
        }
        self.conclude()
    }

    /// The first thing to know.
    pub fn start(&mut self) -> (r: Step)
        requires
            old(self).wf(),
        ensures
            final(self).wf(),
            (final(self)@, r@) == proceeded(old(self)@),
    {
        self.proceed()
    }

    fn find(&mut self, ip: Ip, port: u16) -> (r: Step)
        requires
            old(self).wf(),
        ensures
            final(self).wf(),
            (final(self)@, r@) == found(old(self)@, ip, port),
    {
        let max: u32 = self.limits.max_addresses;
        match append_endpoint(socket_at(normalize_ip(ip), port), (0, 0), max, &mut self.endpoints) {
            Err(error) => {
                assert(self@ =~= old(self)@);
                self.end(Err(error))
            },
            Ok(()) => {
                assert(self@ =~= (ResolutionView { endpoints: self@.endpoints, ..old(self)@ }));
                self.proceed()
            },
        }
    }

    /// Takes the answer which address and which socket address a text is.
    pub fn parsed(&mut self, ip: Option<Ip>, socket: Option<SocketAddress>) -> (r: Step)
        requires
            old(self).wf(),
            old(self).stage is Location || old(self).stage is Host,
        ensures
            final(self).wf(),
            (final(self)@, r@) == after_parsed(old(self)@, ip, socket),
    {
        if let Stage::Host { port } = self.stage {
            return match ip {
                Some(ip) => self.find(ip, port),
                None => {
                    self.stage = Stage::Address { port, priority: 0, weight: 0 };
                    assert(self@ =~= after_parsed(old(self)@, ip, socket).0);
                    Step::LookupIp { host: self.text.clone() }
                },
            };
        }
        match parse_location(self.text.as_str(), ip, socket) {
            Err(error) => self.end(Err(error)),
            Ok((Host::Address(ip), port)) => self.find(ip, port),
            Ok((Host::Name(host), port)) => {
                self.stage = Stage::Host { port };
                self.text = host.clone();
                assert(self@ =~= after_parsed(old(self)@, ip, socket).0);
                Step::Parse { text: host }
            },
        }
    }

    fn fail(&mut self, error: SeedError) -> (r: Step)
        requires
            old(self).wf(),
        ensures
            final(self).wf(),
            (final(self)@, r@) == failed(old(self)@, error@),
    {
        if let SeedError::Lookup { .. } = &error {
            self.failure = Some(error);
            assert(self@ =~= (ResolutionView { failure: Some(error@), ..old(self)@ }));
            self.proceed()
        } else {
            self.end(Err(error))
        }
    }

    /// Takes the answer to a lookup of a service.
    pub fn records_found(&mut self, answer: Result<Vec<SrvRecord>, SeedError>) -> (r: Step)
        requires
            old(self).wf(),
            old(self).stage is Service,
        ensures
            final(self).wf(),
            (final(self)@, r@) == after_records(
                old(self)@,
                match answer {
                    Ok(records) => Ok(records_view(records@)),
                    Err(error) => Err(error@),
                },
            ),
    {
        match answer {
            Err(error) => self.fail(error),
            Ok(records) => {
                if records.len() > self.limits.max_addresses as usize {
                    return self.end(Err(SeedError::LimitExceeded));
                }
                self.records = records;
                self.record = 0;
                assert(self@ =~= (ResolutionView {
                    records: records_view(records@),
                    record: 0,
                    ..old(self)@
                }));
                self.proceed()
            },
        }
    }

    /// Takes the answer to a lookup of a host.
    pub fn addresses_found(&mut self, answer: Result<Vec<Ip>, SeedError>) -> (r: Step)
        requires
            old(self).wf(),
            old(self).stage is Address,
        ensures
            final(self).wf(),
            (final(self)@, r@) == after_addresses(
                old(self)@,
                match answer {
                    Ok(addresses) => Ok(addresses@),
                    Err(error) => Err(error@),
                },
            ),
    {
        match self.stage {
            Stage::Address { port, priority, weight } => match answer {
                Err(error) => self.fail(error),
                Ok(addresses) => {
                    let max: u32 = self.limits.max_addresses;
                    let outcome = resolve_host(
                        &addresses,
                        port,
                        (priority, weight),
                        max,
                        &mut self.endpoints,
                    );
                    assert(self@ =~= (ResolutionView {
                        endpoints: self@.endpoints,
                        ..old(self)@
                    }));
                    match outcome {
                        Ok(()) => self.proceed(),
                        Err(error) => self.fail(error),
                    }
                },
            },
            _ => self.end(Ok(())),
        }
    }
}

// ---------------------------------------------------------------------------
// What holds of every resolution
// ---------------------------------------------------------------------------

/// What is true of every state: the endpoints are at different addresses, none of them an IPv4
/// address mapped to IPv6, they are within the limit, and each has the messenger address of its
/// socket address.
pub open spec fn sound(s: ResolutionView) -> bool {
    &&& 0 <= s.next <= s.seeds.len()
    &&& 0 <= s.record <= s.records.len()
    &&& s.endpoints.len() <= s.limits.max_addresses
    &&& forall|i: int, j: int|
        0 <= i < j < s.endpoints.len() ==> (#[trigger] s.endpoints[i]).address != (
        #[trigger] s.endpoints[j]).address
    &&& forall|i: int|
        0 <= i < s.endpoints.len() ==> {
            let e = #[trigger] s.endpoints[i];
            &&& entity_of(e.address) == Ok::<AddressView, SeedErrorView>(e.entity_address)
            &&& normalized(e.address.spec_ip()) == e.address.spec_ip()
        }
    &&& (s.stage is Location || s.stage is Host || s.stage is Service) ==> s.record
        == s.records.len()
}

/// What `proceeded` leaves alone, and where it stops.
proof fn lemma_proceeded(s: ResolutionView)
    requires
        0 <= s.next <= s.seeds.len(),
        0 <= s.record <= s.records.len(),
    ensures
        ({
            let (t, step) = proceeded(s);
            &&& t.seeds == s.seeds && t.limits == s.limits && t.records == s.records
            &&& t.endpoints == s.endpoints && t.failure == s.failure
            &&& s.next <= t.next <= s.seeds.len()
            &&& s.record <= t.record <= s.records.len()
            &&& step is Done ==> t.stage is Ended
            &&& step == StepView::Done(Ok(())) ==> t.endpoints.len() > 0 && t.next == t.seeds.len()
            &&& step is LookupIp ==> t.stage is Address && t.record == s.record + 1 && t.next
                == s.next
            &&& step is LookupSrv ==> t.stage is Service
            &&& step is Parse ==> t.stage is Location
            &&& (step is LookupSrv || step is Parse) ==> t.next > s.next && s.record
                == s.records.len() && t.record == s.record
        }),
    decreases s.seeds.len() - s.next,
{
    if s.record < s.records.len() {
    } else if s.next < s.seeds.len() {
        let seed = trimmed(s.seeds[s.next]);
        if begins(seed, "v1:") {
            lemma_proceeded(ResolutionView { next: s.next + 1, ..s });
        }
    }
}

proof fn lemma_appended(
    s: ResolutionView,
    ip: Ip,
    port: u16,
    priority: u16,
    weight: u16,
)
    requires
        sound(s),
    ensures
        appended(
            s.endpoints,
            at_port(normalized(ip), port),
            priority,
            weight,
            s.limits.max_addresses as nat,
        ) matches Ok(endpoints) ==> sound(ResolutionView { endpoints, ..s }) && seen(
            endpoints,
            at_port(normalized(ip), port),
        ) && s.endpoints.is_prefix_of(endpoints),
{
    let address = at_port(normalized(ip), port);
    let max = s.limits.max_addresses as nat;
    match appended(s.endpoints, address, priority, weight, max) {
        Err(_) => {},
        Ok(endpoints) => {
            let t = ResolutionView { endpoints, ..s };
            if seen(s.endpoints, address) {
            } else {
                assert(endpoints[s.endpoints.len() as int].address == address);
                assert forall|i: int, j: int| 0 <= i < j < endpoints.len() implies (
                #[trigger] endpoints[i]).address != (#[trigger] endpoints[j]).address by {
                    assert(endpoints[i] == s.endpoints[i]);
                    if j < s.endpoints.len() {
                        assert(endpoints[j] == s.endpoints[j]);
                    }
                }
                assert forall|i: int| 0 <= i < endpoints.len() implies ({
                    let e = #[trigger] endpoints[i];
                    &&& entity_of(e.address) == Ok::<AddressView, SeedErrorView>(e.entity_address)
                    &&& normalized(e.address.spec_ip()) == e.address.spec_ip()
                }) by {
                    if i < s.endpoints.len() {
                        assert(endpoints[i] == s.endpoints[i]);
                    } else {
                        assert(normalized(normalized(ip)) == normalized(ip));
                    }
                }
            }
        },
    }
}

proof fn lemma_filled(
    s: ResolutionView,
    addresses: Seq<Ip>,
    port: u16,
    priority: u16,
    weight: u16,
)
    requires
        sound(s),
    ensures
        ({
            let (endpoints, outcome) = filled(
                s.endpoints,
                addresses,
                port,
                priority,
                weight,
                s.limits.max_addresses as nat,
            );
            &&& sound(ResolutionView { endpoints, ..s })
            &&& s.endpoints.is_prefix_of(endpoints)
            &&& outcome is Ok ==> forall|i: int|
                0 <= i < addresses.len() && !unspecified(#[trigger] addresses[i]) ==> seen(
                    endpoints,
                    at_port(normalized(addresses[i]), port),
                )
        }),
    decreases addresses.len(),
{
    let max = s.limits.max_addresses as nat;
    if addresses.len() > 0 {
        let rest = addresses.drop_last();
        lemma_filled(s, rest, port, priority, weight);
        let (list, outcome) = filled(s.endpoints, rest, port, priority, weight, max);
        let t = ResolutionView { endpoints: list, ..s };
        lemma_appended(t, addresses.last(), port, priority, weight);
        let (more, end) = filled(s.endpoints, addresses, port, priority, weight, max);
        if end is Ok {
            assert forall|i: int|
                0 <= i < addresses.len() && !unspecified(#[trigger] addresses[i]) implies seen(
                more,
                at_port(normalized(addresses[i]), port),
            ) by {
                if i < rest.len() {
                    assert(rest[i] == addresses[i]);
                    let address = at_port(normalized(addresses[i]), port);
                    let k = choose|k: int|
                        0 <= k < list.len() && (#[trigger] list[k]).address == address;
                    assert(more[k] == list[k]);
                }
            }
        }
        assert((ResolutionView { endpoints: more, ..t }) =~= (ResolutionView {
            endpoints: more,
            ..s
        }));
    } else {
        assert((ResolutionView { endpoints: s.endpoints, ..s }) =~= s);
    }
}

/// Every list of endpoints that comes up is free of duplicates and within the limit, and a
/// resolution that succeeds has endpoints.
pub proof fn law_endpoints_are_distinct_and_limited(
    s: ResolutionView,
    ip: Option<Ip>,
    socket: Option<SocketAddress>,
    records: Result<Seq<SrvRecordView>, SeedErrorView>,
    addresses: Result<Seq<Ip>, SeedErrorView>,
)
    requires
        sound(s),
    ensures
        sound(proceeded(s).0),
        s.stage is Location || s.stage is Host ==> sound(after_parsed(s, ip, socket).0),
        s.stage is Service ==> sound(after_records(s, records).0),
        s.stage is Address ==> sound(after_addresses(s, addresses).0),
        proceeded(s).1 == StepView::Done(Ok(())) ==> proceeded(s).0.endpoints.len() > 0,
        s.stage is Location || s.stage is Host ==> (after_parsed(s, ip, socket).1
            == StepView::Done(Ok(())) ==> after_parsed(s, ip, socket).0.endpoints.len() > 0),
        s.stage is Service ==> (after_records(s, records).1 == StepView::Done(Ok(()))
            ==> after_records(s, records).0.endpoints.len() > 0),
        s.stage is Address ==> (after_addresses(s, addresses).1 == StepView::Done(Ok(()))
            ==> after_addresses(s, addresses).0.endpoints.len() > 0),
{
    lemma_proceeded(s);
    if s.stage is Location || s.stage is Host {
        lemma_parsed(s, ip, socket);
    }
    if s.stage is Service {
        lemma_records(s, records);
    }
    if s.stage is Address {
        lemma_addresses(s, addresses);
    }
}

proof fn lemma_found(s: ResolutionView, ip: Ip, port: u16)
    requires
        sound(s),
    ensures
        sound(found(s, ip, port).0),
        found(s, ip, port).1 == StepView::Done(Ok(())) ==> found(s, ip, port).0.endpoints.len() > 0,
{
    lemma_appended(s, ip, port, 0, 0);
    if let Ok(endpoints) = appended(
        s.endpoints,
        at_port(normalized(ip), port),
        0,
        0,
        s.limits.max_addresses as nat,
    ) {
        lemma_proceeded(ResolutionView { endpoints, ..s });
    }
}

proof fn lemma_parsed(s: ResolutionView, ip: Option<Ip>, socket: Option<SocketAddress>)
    requires
        sound(s),
        s.stage is Location || s.stage is Host,
    ensures
        sound(after_parsed(s, ip, socket).0),
        after_parsed(s, ip, socket).1 == StepView::Done(Ok(())) ==> after_parsed(
            s,
            ip,
            socket,
        ).0.endpoints.len() > 0,
{
    match s.stage {
        Stage::Host { port } => {
            if let Some(ip) = ip {
                lemma_found(s, ip, port);
            }
        },
        _ => {
            if let Ok((HostView::Address(ip), port)) = host_and_port(s.text, ip, socket) {
                lemma_found(s, ip, port);
            }
        },
    }
}

proof fn lemma_failed(s: ResolutionView, error: SeedErrorView)
    requires
        sound(s),
    ensures
        sound(failed(s, error).0),
        failed(s, error).0.endpoints == s.endpoints,
        failed(s, error).1 == StepView::Done(Ok(())) ==> s.endpoints.len() > 0,
{
    lemma_proceeded(ResolutionView { failure: Some(error), ..s });
}

proof fn lemma_records(s: ResolutionView, answer: Result<Seq<SrvRecordView>, SeedErrorView>)
    requires
        sound(s),
        s.stage is Service,
    ensures
        sound(after_records(s, answer).0),
        after_records(s, answer).0.endpoints == s.endpoints,
        after_records(s, answer).1 == StepView::Done(Ok(())) ==> s.endpoints.len() > 0,
{
    match answer {
        Err(error) => {
            lemma_failed(s, error);
        },
        Ok(records) => {
            lemma_proceeded(ResolutionView { records, record: 0, ..s });
        },
    }
}

proof fn lemma_addresses(s: ResolutionView, answer: Result<Seq<Ip>, SeedErrorView>)
    requires
        sound(s),
        s.stage is Address,
    ensures
        sound(after_addresses(s, answer).0),
        after_addresses(s, answer).1 == StepView::Done(Ok(())) ==> after_addresses(
            s,
            answer,
        ).0.endpoints.len() > 0,
        s.endpoints.is_prefix_of(after_addresses(s, answer).0.endpoints),
{
    if let Stage::Address { port, priority, weight } = s.stage {
        match answer {
            Err(error) => {
                lemma_failed(s, error);
            },
            Ok(addresses) => {
                let max = s.limits.max_addresses as nat;
                lemma_filled(s, addresses, port, priority, weight);
                let (endpoints, outcome) = resolved(
                    s.endpoints,
                    addresses,
                    port,
                    priority,
                    weight,
                    max,
                );
                let t = ResolutionView { endpoints, ..s };
                assert(t =~= s || sound(t));
                lemma_proceeded(t);
                if let Err(error) = outcome {
                    lemma_failed(t, error);
                }
            },
        }
    }
}

/// A lookup that fails takes nothing away: the endpoints stay, and once nothing is left to look up
/// the resolution succeeds if it has any. Without one, it ends with that failure.
pub proof fn law_failed_lookup_keeps_endpoints(s: ResolutionView, error: SeedErrorView)
    requires
        sound(s),
        error is Lookup,
    ensures
        s.stage is Service ==> after_records(s, Err(error)).0.endpoints == s.endpoints,
        s.stage is Address ==> after_addresses(s, Err(error)).0.endpoints == s.endpoints,
        s.stage is Service && s.next == s.seeds.len() ==> after_records(s, Err(error)).1
            == StepView::Done(
            if s.endpoints.len() > 0 {
                Ok(())
            } else {
                Err(error)
            },
        ),
        s.stage is Address && s.next == s.seeds.len() && s.record == s.records.len()
            ==> after_addresses(s, Err(error)).1 == StepView::Done(
            if s.endpoints.len() > 0 {
                Ok(())
            } else {
                Err(error)
            },
        ),
{
    lemma_failed(s, error);
}

/// A seed that is an address is taken without a lookup.
pub proof fn law_addresses_are_not_looked_up(
    s: ResolutionView,
    ip: Ip,
    socket: Option<SocketAddress>,
)
    requires
        sound(s),
        s.stage is Location || s.stage is Host,
    ensures
        !(after_parsed(s, Some(ip), socket).1 is LookupIp),
{
    let port = match s.stage {
        Stage::Host { port } => port,
        _ => DEFAULT_MONITOR_V2_PORT,
    };
    if let Ok(endpoints) = appended(
        s.endpoints,
        at_port(normalized(ip), port),
        0,
        0,
        s.limits.max_addresses as nat,
    ) {
        lemma_proceeded(ResolutionView { endpoints, ..s });
    }
}

/// The addresses of a host end up in the list, behind what it had, unless they do not fit.
pub proof fn law_resolved_addresses_are_kept(s: ResolutionView, addresses: Seq<Ip>, i: int)
    requires
        sound(s),
        s.stage is Address,
        0 <= i < addresses.len(),
        !unspecified(addresses[i]),
    ensures
        ({
            let t = after_addresses(s, Ok(addresses)).0;
            &&& s.endpoints.is_prefix_of(t.endpoints)
            &&& !(after_addresses(s, Ok(addresses)).1 matches StepView::Done(Err(_))) ==> seen(
                t.endpoints,
                at_port(normalized(addresses[i]), s.stage->Address_port),
            )
        }),
{
    lemma_addresses(s, Ok(addresses));
    if let Stage::Address { port, priority, weight } = s.stage {
        lemma_filled(s, addresses, port, priority, weight);
        let (endpoints, outcome) = resolved(
            s.endpoints,
            addresses,
            port,
            priority,
            weight,
            s.limits.max_addresses as nat,
        );
        let t = ResolutionView { endpoints, ..s };
        lemma_proceeded(t);
        if let Err(error) = outcome {
            lemma_filled_is_no_lookup(s.endpoints, addresses, port, priority, weight, s.limits.max_addresses as nat);
        }
    }
}

proof fn lemma_filled_is_no_lookup(
    endpoints: Seq<EndpointView>,
    addresses: Seq<Ip>,
    port: u16,
    priority: u16,
    weight: u16,
    max: nat,
)
    ensures
        filled(endpoints, addresses, port, priority, weight, max).1 matches Err(error) ==> !(
        error is Lookup),
    decreases addresses.len(),
{
    if addresses.len() > 0 {
        lemma_filled_is_no_lookup(endpoints, addresses.drop_last(), port, priority, weight, max);
    }
}

/// How far a stage is from the next seed or record.
pub open spec fn distance(stage: Stage) -> nat {
    match stage {
        Stage::Ready => 4,
        Stage::Location => 3,
        Stage::Host { .. } => 2,
        Stage::Service => 1,
        Stage::Address { .. } => 0,
        Stage::Ended => 0,
    }
}

/// Whether one state is nearer to the end than another: fewer seeds are left, or as many and the
/// stage is nearer to the next, or fewer records are left.
pub open spec fn nearer(t: ResolutionView, s: ResolutionView) -> bool {
    let (a, b) = (t.seeds.len() - t.next, s.seeds.len() - s.next);
    ||| a < b
    ||| a == b && distance(t.stage) < distance(s.stage)
    ||| a == b && distance(t.stage) == distance(s.stage) && t.records.len() - t.record
        < s.records.len() - s.record
}

/// Every answer ends the resolution or brings it nearer to its end.
pub proof fn law_every_answer_makes_progress(
    s: ResolutionView,
    ip: Option<Ip>,
    socket: Option<SocketAddress>,
    records: Result<Seq<SrvRecordView>, SeedErrorView>,
    addresses: Result<Seq<Ip>, SeedErrorView>,
)
    requires
        sound(s),
    ensures
        s.stage is Location || s.stage is Host ==> (after_parsed(s, ip, socket).1 is Done || nearer(
            after_parsed(s, ip, socket).0,
            s,
        )),
        s.stage is Service ==> (after_records(s, records).1 is Done || nearer(
            after_records(s, records).0,
            s,
        )),
        s.stage is Address ==> (after_addresses(s, addresses).1 is Done || nearer(
            after_addresses(s, addresses).0,
            s,
        )),
{
    let max = s.limits.max_addresses as nat;
    match s.stage {
        Stage::Host { port } => {
            if let Some(ip) = ip {
                lemma_found_progress(s, ip, port);
            }
        },
        Stage::Location => {
            if let Ok((HostView::Address(ip), port)) = host_and_port(s.text, ip, socket) {
                lemma_found_progress(s, ip, port);
            }
        },
        Stage::Service => {
            match records {
                Err(error) => {
                    lemma_proceeded(ResolutionView { failure: Some(error), ..s });
                },
                Ok(records) => {
                    lemma_proceeded(ResolutionView { records, record: 0, ..s });
                },
            }
        },
        Stage::Address { port, priority, weight } => {
            match addresses {
                Err(error) => {
                    lemma_proceeded(ResolutionView { failure: Some(error), ..s });
                },
                Ok(addresses) => {
                    let (endpoints, outcome) = resolved(
                        s.endpoints,
                        addresses,
                        port,
                        priority,
                        weight,
                        max,
                    );
                    let t = ResolutionView { endpoints, ..s };
                    lemma_proceeded(t);
                    if let Err(error) = outcome {
                        lemma_proceeded(ResolutionView { failure: Some(error), ..t });
                    }
                },
            }
        },
        _ => {},
    }
}

proof fn lemma_found_progress(s: ResolutionView, ip: Ip, port: u16)
    requires
        sound(s),
        s.stage is Location || s.stage is Host,
    ensures
        found(s, ip, port).1 is Done || nearer(found(s, ip, port).0, s),
{
    if let Ok(endpoints) = appended(
        s.endpoints,
        at_port(normalized(ip), port),
        0,
        0,
        s.limits.max_addresses as nat,
    ) {
        lemma_proceeded(ResolutionView { endpoints, ..s });
    }
}

/// The name to ask for the records of a service: the service and the protocol, each behind an
/// underscore, and the domain.
pub fn srv_query(service: &str, protocol: &str, name: &str) -> (r: String)
    ensures
        r@ == seq!['_'] + service@ + seq!['.', '_'] + protocol@ + seq!['.'] + name@,
{
    let mut chars: Vec<char> = vec!['_'];
    let mut service = chars_of(service);
    chars.append(&mut service);
    chars.push('.');
    chars.push('_');
    let mut protocol = chars_of(protocol);
    chars.append(&mut protocol);
    chars.push('.');
    let mut name = chars_of(name);
    chars.append(&mut name);
    string_of(chars)
}

// ---------------------------------------------------------------------------
// Views
// ---------------------------------------------------------------------------

/// What stands for a value of this type is its case, with what it holds.
pub proof fn law_step_is_its_case(x: &Step)
    ensures
        x@ == (match x {
                Step::Parse { text } => StepView::Parse { text: text@ },
                Step::LookupSrv { name } => StepView::LookupSrv { name: name@ },
                Step::LookupIp { host } => StepView::LookupIp { host: host@ },
                Step::Done(result) => StepView::Done(outcome_view(*result)),
            }),
{
}

/// What stands for a value of this type has its fields.
pub proof fn law_resolution_has_its_fields(x: Resolution)
    ensures
        x@.seeds == (texts_view(x.seeds@)),
        x@.limits == x.limits,
        x@.next == (x.next as int),
        x@.stage == x.stage,
        x@.text == x.text@,
        x@.records == (records_view(x.records@)),
        x@.record == (x.record as int),
        x@.endpoints == (endpoints_view(x.endpoints@)),
        x@.failure == (failure_view(x.failure)),
{
}

} // verus!
