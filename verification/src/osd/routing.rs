//! How a request is carried out: sent to the primary of its placement group, again where that helps
//! and is safe, and to another place where it is told so.
//!
//! A [`Plan`] says what to do next. The caller looks up where the request goes, sends it, and tells
//! what came of it.

use crate::maps::PG;
use crate::msgr::message::{Message, MessageView};
use crate::osd::backoff::{HObject, HObjectView};
use crate::osd::client::{
    allows_unknown_retry, answers, check_options, contains_durable_mutation, map_message_error,
    message_failure, operation_codes, or_unknown, preserve_unknown, readable, repeatable,
    results_match, unsettled, validate_durable_reply, validate_results, validate_target,
    CompoundResult, CompoundView, Error, Target, TargetView, UnknownCause, MAX_ATTEMPTS, TRY_AGAIN,
};
use crate::osd::messages::{
    all_described, any_mutation, decode_reply, encode_request, operation_flags, operation_route,
    operations_view, reply_decoding, request_encoding, Limits, Operation, OperationResultView,
    OperationView, Redirect, RedirectView, Reply, ReplyView, Request, FLAG_IGNORE_CACHE,
    FLAG_IGNORE_OVERLAY, FLAG_PG_OP, FLAG_REDIRECTED, FLAG_RETRY, FLAG_RETURN_VECTOR, NO_SNAP,
    OP_FLAG_FAIL_OK,
};
use vstd::prelude::*;
use vstd::slice::slice_to_vec;

verus! {

/// Where a map places a request: the epoch of the map, the placement group, the shard and the
/// daemon of its primary, and the hash of the object.
#[derive(Clone, Copy, Debug, PartialEq, Eq, Structural)]
pub struct Placement {
    pub epoch: u32,
    pub pg: PG,
    pub primary_shard: i8,
    pub sharded: bool,
    pub raw_hash: u32,
    pub acting_primary: i32,
}

/// Why a request has no place: there is no map, the map has no such pool, or it has no primary with
/// addresses for it.
#[derive(Clone, Copy, Debug, PartialEq, Eq, Structural)]
pub enum RouteFault {
    NoMap,
    NoPool,
    NoPlace,
}

/// A request that is being carried out.
#[derive(Debug)]
pub struct Plan {
    pub target: Target,
    pub operations: Vec<Operation>,
    pub codes: Vec<u16>,
    pub transaction_id: u64,
    pub mutation: bool,
    pub durable: bool,
    pub retry_unknown: bool,
    pub group: bool,
    pub group_seed: u32,
    pub route_hash: Option<u32>,
    pub flags: u32,
    pub attempt: usize,
    pub prior_unknown: Option<UnknownCause>,
    pub placement: Placement,
}

#[verifier::ext_equal]
pub struct PlanView {
    pub target: TargetView,
    pub operations: Seq<OperationView>,
    pub codes: Seq<u16>,
    pub transaction_id: u64,
    pub mutation: bool,
    pub durable: bool,
    pub retry_unknown: bool,
    pub group: bool,
    pub group_seed: u32,
    pub route_hash: Option<u32>,
    pub flags: u32,
    pub attempt: int,
    pub prior_unknown: Option<UnknownCause>,
    pub placement: Placement,
}

impl View for Plan {
    type V = PlanView;

    open spec fn view(&self) -> PlanView {
        PlanView {
            target: self.target@,
            operations: operations_view(self.operations@),
            codes: self.codes@,
            transaction_id: self.transaction_id,
            mutation: self.mutation,
            durable: self.durable,
            retry_unknown: self.retry_unknown,
            group: self.group,
            group_seed: self.group_seed,
            route_hash: self.route_hash,
            flags: self.flags,
            attempt: self.attempt as int,
            prior_unknown: self.prior_unknown,
            placement: self.placement,
        }
    }
}

/// No place.
pub open spec fn nowhere() -> Placement {
    Placement {
        epoch: 0,
        pg: PG { pool: 0, seed: 0, preferred: 0 },
        primary_shard: 0,
        sharded: false,
        raw_hash: 0,
        acting_primary: 0,
    }
}

/// Whether all operations may be sent again when it is not known whether they were done.
pub open spec fn all_repeatable(ops: Seq<OperationView>) -> bool {
    forall|i: int| 0 <= i < ops.len() ==> repeatable(#[trigger] ops[i])
}

/// Whether all operations go to the same place.
pub open spec fn one_route(ops: Seq<OperationView>) -> bool {
    forall|i: int| 1 <= i < ops.len() ==> operation_route(#[trigger] ops[i]) == operation_route(
        ops[0],
    )
}

/// The flags of a request for an object at the start. One that is routed by a hash of its own is
/// about a placement group, and one with several operations wants all results.
pub open spec fn initial_flags(ops: Seq<OperationView>) -> u32 {
    let routed: u32 = if ops.len() > 0 && operation_route(ops[0]) is Some {
        FLAG_PG_OP | FLAG_IGNORE_OVERLAY
    } else {
        0
    };
    if ops.len() > 1 {
        routed | FLAG_RETURN_VECTOR
    } else {
        routed
    }
}

/// A request for an object at the start.
pub open spec fn object_plan(
    target: TargetView,
    ops: Seq<OperationView>,
    codes: Seq<u16>,
    transaction_id: u64,
    mutation: bool,
) -> PlanView {
    PlanView {
        target: if mutation {
            target
        } else {
            readable(target)
        },
        operations: ops,
        codes,
        transaction_id,
        mutation,
        durable: any_mutation(ops),
        retry_unknown: all_repeatable(ops),
        group: false,
        group_seed: 0,
        route_hash: if ops.len() > 0 {
            operation_route(ops[0])
        } else {
            None
        },
        flags: initial_flags(ops),
        attempt: 0,
        prior_unknown: None,
        placement: nowhere(),
    }
}

/// The target of a request for a placement group.
pub open spec fn group_target(pool_id: i64) -> TargetView {
    TargetView {
        pool_id,
        object: Seq::empty(),
        locator: Seq::empty(),
        namespace: Seq::empty(),
        snapshot: NO_SNAP,
        snapshot_sequence: 0,
        write_snapshots: Seq::empty(),
    }
}

/// A request for a placement group at the start.
pub open spec fn group_plan(
    pool_id: i64,
    seed: u32,
    ops: Seq<OperationView>,
    codes: Seq<u16>,
    transaction_id: u64,
) -> PlanView {
    PlanView {
        target: group_target(pool_id),
        operations: ops,
        codes,
        transaction_id,
        mutation: false,
        durable: false,
        retry_unknown: all_repeatable(ops),
        group: true,
        group_seed: seed,
        route_hash: None,
        flags: if ops.len() > 1 {
            FLAG_PG_OP | FLAG_RETURN_VECTOR
        } else {
            FLAG_PG_OP
        },
        attempt: 0,
        prior_unknown: None,
        placement: nowhere(),
    }
}

fn are_repeatable(operations: &Vec<Operation>) -> (r: bool)
    ensures
        r == all_repeatable(operations_view(operations@)),
{
    let ghost ops = operations_view(operations@);
    let mut i: usize = 0;
    while i < operations.len()
        invariant
            i <= operations@.len(),
            ops == operations_view(operations@),
            forall|j: int| 0 <= j < i ==> repeatable(#[trigger] ops[j]),
        decreases operations@.len() - i,
    {
        assert(ops[i as int] == operations@[i as int]@);
        if !allows_unknown_retry(&operations[i]) {
            return false;
        }
        i = i + 1;
    }
    true
}

fn same_route(a: Option<u32>, b: Option<u32>) -> (r: bool)
    ensures
        r == (a == b),
{
    match (a, b) {
        (None, None) => true,
        (Some(a), Some(b)) => a == b,
        _ => false,
    }
}

fn have_one_route(operations: &Vec<Operation>) -> (r: bool)
    ensures
        r == one_route(operations_view(operations@)),
{
    let ghost ops = operations_view(operations@);
    if operations.len() == 0 {
        return true;
    }
    let route = operations[0].route_hash();
    assert(ops[0] == operations@[0]@);
    let mut i: usize = 1;
    while i < operations.len()
        invariant
            1 <= i <= operations@.len(),
            ops == operations_view(operations@),
            route == operation_route(ops[0]),
            forall|j: int| 1 <= j < i ==> operation_route(#[trigger] ops[j]) == route,
        decreases operations@.len() - i,
    {
        assert(ops[i as int] == operations@[i as int]@);
        if !same_route(operations[i].route_hash(), route) {
            return false;
        }
        i = i + 1;
    }
    true
}

fn no_placement() -> (r: Placement)
    ensures
        r == nowhere(),
{
    Placement {
        epoch: 0,
        pg: PG { pool: 0, seed: 0, preferred: 0 },
        primary_shard: 0,
        sharded: false,
        raw_hash: 0,
        acting_primary: 0,
    }
}

/// Whether operations may be sent at all: the client is open, and there are some and not too many.
pub fn check_request(closed: bool, count: usize, max_operations: u32) -> (r: Result<(), Error>)
    ensures
        r == if closed {
            Err::<(), Error>(Error::Closed)
        } else if count == 0 || count > max_operations {
            Err(Error::LimitExceeded)
        } else {
            Ok(())
        },
{
    if closed {
        return Err(Error::Closed);
    }
    if count == 0 || count > max_operations as usize {
        return Err(Error::LimitExceeded);
    }
    Ok(())
}

/// Whether codes are those of operations, as far as the operations have a descriptor.
pub open spec fn codes_fit(codes: Seq<u16>, ops: Seq<OperationView>) -> bool {
    codes.len() == ops.len() && (all_described(ops) ==> codes == operation_codes(ops))
}

/// The pool of a placement group, if it has a number that requests can name.
pub fn group_pool(pg: PG) -> (r: Result<i64, Error>)
    ensures
        r == if pg.pool <= i64::MAX {
            Ok::<i64, Error>(pg.pool as i64)
        } else {
            Err(Error::LimitExceeded)
        },
{
    if pg.pool > i64::MAX as u64 {
        return Err(Error::LimitExceeded);
    }
    Ok(pg.pool as i64)
}

impl Plan {
    pub open spec fn wf(self) -> bool {
        codes_fit(self.codes@, operations_view(self.operations@)) && self.attempt <= MAX_ATTEMPTS
    }

    /// A request for an object. All its operations must go to one place. `codes` are the codes of
    /// the operations.
    pub fn for_object(
        target: Target,
        operations: Vec<Operation>,
        codes: Vec<u16>,
        transaction_id: u64,
        mutation: bool,
    ) -> (r: Result<Self, Error>)
        requires
            codes_fit(codes@, operations_view(operations@)),
        ensures
            match r {
                Ok(plan) => one_route(operations_view(operations@)) && plan.wf() && plan@
                    == object_plan(
                    target@,
                    operations_view(operations@),
                    codes@,
                    transaction_id,
                    mutation,
                ),
                Err(error) => !one_route(operations_view(operations@)) && error
                    == Error::LimitExceeded,
            },
    {
        if !have_one_route(&operations) {
            return Err(Error::LimitExceeded);
        }
        let ghost ops = operations_view(operations@);
        let target = if mutation {
            target
        } else {
            target.for_reading()
        };
        let retry_unknown: bool = are_repeatable(&operations);
        let durable: bool = contains_durable_mutation(operations.as_slice());
        let route_hash: Option<u32> = if operations.len() > 0 {
            assert(ops[0] == operations@[0]@);
            operations[0].route_hash()
        } else {
            None
        };
        let routed: u32 = if route_hash.is_some() {
            FLAG_PG_OP | FLAG_IGNORE_OVERLAY
        } else {
            0
        };
        let flags: u32 = if operations.len() > 1 {
            routed | FLAG_RETURN_VECTOR
        } else {
            routed
        };
        Ok(
            Plan {
                target,
                operations,
                codes,
                transaction_id,
                mutation,
                durable,
                retry_unknown,
                group: false,
                group_seed: 0,
                route_hash,
                flags,
                attempt: 0,
                prior_unknown: None,
                placement: no_placement(),
            },
        )
    }

    /// A request for a placement group, if its pool has a number that requests can name.
    pub fn for_group(
        pg: PG,
        operations: Vec<Operation>,
        codes: Vec<u16>,
        transaction_id: u64,
    ) -> (r: Result<Self, Error>)
        requires
            codes_fit(codes@, operations_view(operations@)),
        ensures
            match r {
                Ok(plan) => pg.pool <= i64::MAX && plan.wf() && plan@ == group_plan(
                    pg.pool as i64,
                    pg.seed,
                    operations_view(operations@),
                    codes@,
                    transaction_id,
                ),
                Err(error) => pg.pool > i64::MAX && error == Error::LimitExceeded,
            },
    {
        let pool_id: i64 = group_pool(pg)?;
        let retry_unknown: bool = are_repeatable(&operations);
        let flags: u32 = if operations.len() > 1 {
            FLAG_PG_OP | FLAG_RETURN_VECTOR
        } else {
            FLAG_PG_OP
        };
        let target = Target {
            pool_id,
            object: Vec::new(),
            locator: Vec::new(),
            namespace: Vec::new(),
            snapshot: NO_SNAP,
            snapshot_sequence: 0,
            write_snapshots: Vec::new(),
        };
        assert(target@ =~= group_target(pg.pool as i64));
        Ok(
            Plan {
                target,
                operations,
                codes,
                transaction_id,
                mutation: false,
                durable: false,
                retry_unknown,
                group: true,
                group_seed: pg.seed,
                route_hash: None,
                flags,
                attempt: 0,
                prior_unknown: None,
                placement: no_placement(),
            },
        )
    }
}

// ---------------------------------------------------------------------------
// Where a request goes
// ---------------------------------------------------------------------------

/// How a map is asked for the place of a request: by the name of its object, or by a hash.
#[derive(Clone, Copy, Debug, PartialEq, Eq, Structural)]
pub enum Lookup {
    Object,
    RawHash(u32),
}

/// What a map answers: whether it has the pool of the request, the place of the request, and whether
/// the primary of that place has addresses.
#[derive(Clone, Copy, Debug, PartialEq, Eq, Structural)]
pub struct RouteFacts {
    pub pool_exists: bool,
    pub placement: Option<Placement>,
    pub has_addresses: bool,
}

/// Where a request goes, given what a map answers, if there is a map. Only a request for a placement
/// group asks for its pool first.
pub open spec fn routed(group: bool, facts: Option<RouteFacts>) -> Result<Placement, RouteFault> {
    match facts {
        None => Err(RouteFault::NoMap),
        Some(facts) => if group && !facts.pool_exists {
            Err(RouteFault::NoPool)
        } else {
            match facts.placement {
                Some(placement) => if facts.has_addresses {
                    Ok(placement)
                } else {
                    Err(RouteFault::NoPlace)
                },
                None => Err(RouteFault::NoPlace),
            }
        },
    }
}

impl Plan {
    /// How the place of the request is looked up: by the seed of its placement group, by the hash
    /// that its operations carry, or by its object.
    pub fn lookup(&self) -> (r: Lookup)
        ensures
            r == if self@.group {
                Lookup::RawHash(self@.group_seed)
            } else {
                match self@.route_hash {
                    Some(hash) => Lookup::RawHash(hash),
                    None => Lookup::Object,
                }
            },
    {
        if self.group {
            return Lookup::RawHash(self.group_seed);
        }
        match self.route_hash {
            Some(hash) => Lookup::RawHash(hash),
            None => Lookup::Object,
        }
    }

    /// How the primary is looked up while another one is waited for: by the seed of the placement
    /// group, or by the object.
    pub fn primary_lookup(&self) -> (r: Lookup)
        ensures
            r == if self@.group {
                Lookup::RawHash(self@.group_seed)
            } else {
                Lookup::Object
            },
    {
        if self.group {
            Lookup::RawHash(self.group_seed)
        } else {
            Lookup::Object
        }
    }

    /// Where the request goes, given what a map answers, if there is a map.
    pub fn route(&self, facts: Option<RouteFacts>) -> (r: Result<Placement, RouteFault>)
        ensures
            r == routed(self@.group, facts),
    {
        match facts {
            None => Err(RouteFault::NoMap),
            Some(facts) => {
                if self.group && !facts.pool_exists {
                    return Err(RouteFault::NoPool);
                }
                match facts.placement {
                    Some(placement) => if facts.has_addresses {
                        Ok(placement)
                    } else {
                        Err(RouteFault::NoPlace)
                    },
                    None => Err(RouteFault::NoPlace),
                }
            },
        }
    }
}

// ---------------------------------------------------------------------------
// An attempt
// ---------------------------------------------------------------------------

/// What it means that a request has no place.
pub open spec fn route_failure(fault: RouteFault) -> Error {
    match fault {
        RouteFault::NoMap => Error::NotConnected,
        RouteFault::NoPool => Error::WireErrno((-2int) as i32),
        RouteFault::NoPlace => Error::NoPrimary,
    }
}

/// The request at the start of an attempt, or how it ends there. Every attempt but the first says
/// that it is another one.
pub open spec fn attempting(
    p: PlanView,
    closed: bool,
    canceled: bool,
    expired: bool,
    route: Result<Placement, RouteFault>,
) -> (PlanView, Result<(), Error>) {
    let failure = if p.attempt >= MAX_ATTEMPTS {
        Some(Error::RecoveryExhausted)
    } else if closed {
        Some(Error::Closed)
    } else if canceled {
        Some(Error::Cancelled)
    } else if expired {
        Some(Error::Timeout)
    } else {
        match route {
            Err(fault) => Some(route_failure(fault)),
            Ok(placement) => if placement.acting_primary < 0 {
                Some(Error::NoPrimary)
            } else {
                None
            },
        }
    };
    match failure {
        Some(error) => (p, Err(or_unknown(error, p.prior_unknown))),
        None => (
            PlanView {
                placement: route->Ok_0,
                flags: if p.attempt > 0 {
                    p.flags | FLAG_RETRY
                } else {
                    p.flags
                },
                ..p
            },
            Ok(()),
        ),
    }
}

/// Whether a request is the one that an attempt sends, for a client with an id and an incarnation.
pub open spec fn carries(
    r: Request<'_>,
    p: PlanView,
    global_id: u64,
    incarnation: i32,
    features: u64,
) -> bool {
    &&& r.map_epoch == p.placement.epoch
    &&& r.pg == p.placement.pg
    &&& r.shard == p.placement.primary_shard
    &&& r.sharded == p.placement.sharded
    &&& r.object_hash == p.placement.raw_hash
    &&& r.pool_id == p.target.pool_id
    &&& r.object@ == p.target.object
    &&& r.locator@ == p.target.locator
    &&& r.namespace@ == p.target.namespace
    &&& r.snapshot == p.target.snapshot
    &&& r.snapshot_sequence == p.target.snapshot_sequence
    &&& r.write_snapshots@ == p.target.write_snapshots
    &&& r.transaction_id == p.transaction_id
    &&& r.client_global_id == global_id
    &&& r.client_incarnation == incarnation
    &&& r.retry == p.attempt
    &&& r.flags == p.flags
    &&& r.features == features
    &&& operations_view(r.operations@) == p.operations
}

/// The place of a request's object in the order of objects, by which backoffs hold it back.
pub open spec fn place_of(p: PlanView) -> HObjectView {
    HObjectView {
        key: p.target.locator,
        object: p.target.object,
        snapshot: p.target.snapshot,
        hash: match p.route_hash {
            Some(hash) => hash,
            None => p.placement.raw_hash,
        },
        max: false,
        namespace: p.target.namespace,
        pool: p.target.pool_id,
    }
}

impl Plan {
    /// Starts an attempt, given whether the client is closed, whether the caller has cancelled or
    /// run out of time, and where a map places the request.
    pub fn begin_attempt(
        &mut self,
        closed: bool,
        canceled: bool,
        expired: bool,
        route: Result<Placement, RouteFault>,
    ) -> (r: Result<(), Error>)
        requires
            old(self).wf(),
        ensures
            final(self).wf(),
            (final(self)@, r) == attempting(old(self)@, closed, canceled, expired, route),
            r is Ok ==> final(self).attempt < MAX_ATTEMPTS,
    {
        if self.attempt >= MAX_ATTEMPTS {
            return Err(preserve_unknown(Error::RecoveryExhausted, self.prior_unknown));
        }
        if closed {
            return Err(preserve_unknown(Error::Closed, self.prior_unknown));
        }
        match check_options(canceled, expired) {
            Ok(()) => {},
            Err(error) => {
                return Err(preserve_unknown(error, self.prior_unknown));
            },
        }
        match route {
            Err(RouteFault::NoMap) => Err(
                preserve_unknown(Error::NotConnected, self.prior_unknown),
            ),
            Err(RouteFault::NoPool) => Err(
                preserve_unknown(Error::WireErrno(-2), self.prior_unknown),
            ),
            Err(RouteFault::NoPlace) => Err(preserve_unknown(Error::NoPrimary, self.prior_unknown)),
            Ok(placement) => {
                if placement.acting_primary < 0 {
                    return Err(preserve_unknown(Error::NoPrimary, self.prior_unknown));
                }
                self.placement = placement;
                if self.attempt > 0 {
                    self.flags = self.flags | FLAG_RETRY;
                }
                Ok(())
            },
        }
    }

    /// The message of an attempt.
    pub fn message(&self, global_id: u64, incarnation: i32, features: u64, limits: Limits) -> (r:
        Result<Message, Error>)
        requires
            self.wf(),
            all_described(self@.operations),
        ensures
            forall|q: Request<'_>| #[trigger]
                carries(q, self@, global_id, incarnation, features) ==> match request_encoding(
                    q,
                    limits,
                ) {
                    Ok(message) => r matches Ok(given) && given@ == message,
                    Err(error) => r == Err::<Message, Error>(message_failure(error)),
                },
    {
        let request = Request {
            map_epoch: self.placement.epoch,
            pg: self.placement.pg,
            shard: self.placement.primary_shard,
            sharded: self.placement.sharded,
            object_hash: self.placement.raw_hash,
            pool_id: self.target.pool_id,
            object: self.target.object.as_slice(),
            locator: self.target.locator.as_slice(),
            namespace: self.target.namespace.as_slice(),
            snapshot: self.target.snapshot,
            snapshot_sequence: self.target.snapshot_sequence,
            write_snapshots: self.target.write_snapshots.as_slice(),
            transaction_id: self.transaction_id,
            client_global_id: global_id,
            client_incarnation: incarnation,
            retry: self.attempt as i32,
            flags: self.flags,
            features,
            operations: self.operations.as_slice(),
        };
        proof {
            assert forall|q: Request<'_>| #[trigger]
                carries(q, self@, global_id, incarnation, features) implies request_encoding(
                q,
                limits,
            ) == request_encoding(request, limits) by {
                assert(carries(request, self@, global_id, incarnation, features));
            }
        }
        match encode_request(&request, limits) {
            Ok(message) => Ok(message),
            Err(error) => Err(map_message_error(error)),
        }
    }

    /// The place of the request's object, by which backoffs hold it back.
    pub fn place(&self) -> (r: HObject)
        ensures
            r@ == place_of(self@),
    {
        let hash: u32 = match self.route_hash {
            Some(hash) => hash,
            None => self.placement.raw_hash,
        };
        HObject {
            key: slice_to_vec(self.target.locator.as_slice()),
            object: slice_to_vec(self.target.object.as_slice()),
            snapshot: self.target.snapshot,
            hash,
            max: false,
            namespace: slice_to_vec(self.target.namespace.as_slice()),
            pool: self.target.pool_id,
        }
    }
}

// ---------------------------------------------------------------------------
// What comes of an attempt
// ---------------------------------------------------------------------------

/// What to do next: start another attempt, wait for a map after an epoch, wait for another primary,
/// take a new transaction, or end.
#[derive(Debug)]
pub enum Next {
    Again,
    Refresh { epoch: u32 },
    AwaitPrimary,
    Retransact,
    Done(Result<CompoundResult, Error>),
}

pub enum NextView {
    Again,
    Refresh { epoch: u32 },
    AwaitPrimary,
    Retransact,
    Done(Result<CompoundView, Error>),
}

impl View for Next {
    type V = NextView;

    open spec fn view(&self) -> NextView {
        match self {
            Next::Again => NextView::Again,
            Next::Refresh { epoch } => NextView::Refresh { epoch: *epoch },
            Next::AwaitPrimary => NextView::AwaitPrimary,
            Next::Retransact => NextView::Retransact,
            Next::Done(Ok(result)) => NextView::Done(Ok(result@)),
            Next::Done(Err(error)) => NextView::Done(Err(*error)),
        }
    }
}

/// What to do next, and whether the session is not to be used any more.
#[derive(Debug)]
pub struct Outcome {
    pub next: Next,
    pub invalidate: bool,
}

pub struct OutcomeView {
    pub next: NextView,
    pub invalidate: bool,
}

impl View for Outcome {
    type V = OutcomeView;

    open spec fn view(&self) -> OutcomeView {
        OutcomeView { next: self.next@, invalidate: self.invalidate }
    }
}

pub open spec fn end(error: Error, invalidate: bool) -> OutcomeView {
    OutcomeView { next: NextView::Done(Err(error)), invalidate }
}

fn ending(error: Error, invalidate: bool) -> (r: Outcome)
    ensures
        r@ == end(error, invalidate),
{
    Outcome { next: Next::Done(Err(error)), invalidate }
}

/// The request with another attempt counted.
pub open spec fn another(p: PlanView) -> PlanView {
    PlanView { attempt: p.attempt + 1, ..p }
}

/// The request after it was not answered, and what to do. A request whose outcome is not known is
/// sent again only if its operations allow it and another primary takes over.
pub open spec fn unanswered(p: PlanView, error: Error, closed: bool) -> (PlanView, OutcomeView) {
    if error == Error::QueueSaturated {
        (p, end(or_unknown(error, p.prior_unknown), false))
    } else if closed {
        (p, end(or_unknown(Error::Closed, p.prior_unknown), true))
    } else if let Error::OutcomeUnknown(cause) = error {
        let first = match p.prior_unknown {
            Some(prior) => prior,
            None => cause,
        };
        let after = PlanView { prior_unknown: Some(first), ..p };
        if p.retry_unknown {
            (after, OutcomeView { next: NextView::AwaitPrimary, invalidate: true })
        } else {
            (after, end(Error::OutcomeUnknown(first), true))
        }
    } else if error == Error::Timeout || error == Error::Cancelled {
        (p, end(or_unknown(error, p.prior_unknown), true))
    } else {
        (
            p,
            OutcomeView { next: NextView::Refresh { epoch: p.placement.epoch }, invalidate: true },
        )
    }
}

/// The error where a reply cannot be relied on: what a change did is then not known.
pub open spec fn unreliable(p: PlanView) -> Error {
    if p.mutation {
        Error::OutcomeUnknown(UnknownCause::Transport)
    } else {
        Error::MalformedReply
    }
}

/// The request after it was redirected. One for a placement group stays what it is.
pub open spec fn redirected(p: PlanView, redirect: RedirectView) -> PlanView {
    let flags = p.flags | (FLAG_REDIRECTED | FLAG_IGNORE_CACHE | FLAG_IGNORE_OVERLAY);
    if p.group {
        PlanView { flags, ..p }
    } else {
        PlanView {
            flags,
            target: TargetView {
                pool_id: redirect.pool,
                object: if redirect.object.len() == 0 {
                    p.target.object
                } else {
                    redirect.object
                },
                locator: redirect.locator,
                namespace: redirect.namespace,
                ..p.target
            },
            ..p
        }
    }
}

/// The first operation that failed without being allowed to, from `at` on.
pub open spec fn first_failure(
    results: Seq<OperationResultView>,
    ops: Seq<OperationView>,
    at: int,
) -> Option<i32>
    decreases ops.len() - at,
{
    if at < 0 || at >= ops.len() || at >= results.len() {
        None
    } else if results[at].code < 0 && operation_flags(ops[at]) & OP_FLAG_FAIL_OK == 0 {
        Some(results[at].code)
    } else {
        first_failure(results, ops, at + 1)
    }
}

/// Whether one of the results asks to try again.
pub open spec fn any_try_again(results: Seq<OperationResultView>) -> bool {
    exists|i: int| 0 <= i < results.len() && (#[trigger] results[i]).code == TRY_AGAIN
}

/// What to do after a reply with results.
pub open spec fn concluded(p: PlanView, reply: ReplyView) -> OutcomeView {
    let refresh = OutcomeView {
        next: NextView::Refresh { epoch: p.placement.epoch },
        invalidate: false,
    };
    if reply.result == TRY_AGAIN {
        refresh
    } else if !results_match(reply.operations, p.operations, p.codes) {
        end(unreliable(p), true)
    } else if any_try_again(reply.operations) {
        refresh
    } else if p.durable && unsettled(reply) {
        end(Error::OutcomeUnknown(UnknownCause::Transport), true)
    } else if reply.result < 0 {
        end(Error::WireErrno(reply.result), false)
    } else {
        match first_failure(reply.operations, p.operations, 0) {
            Some(code) => end(Error::WireErrno(code), false),
            None => OutcomeView {
                next: NextView::Done(
                    Ok(CompoundView { operations: reply.operations, version: reply.version }),
                ),
                invalidate: false,
            },
        }
    }
}

/// The request after a reply, and what to do. A reply to another request or one that cannot be read
/// ends it. Any other one settles what was not known before.
pub open spec fn answered(p: PlanView, m: MessageView, limits: Limits) -> (PlanView, OutcomeView) {
    match reply_decoding(m, limits) {
        Err(_) => (p, end(unreliable(p), true)),
        Ok(reply) => if !answers(reply, p.target.object, p.placement.pg, p.attempt) {
            (p, end(unreliable(p), true))
        } else {
            let settled = PlanView { prior_unknown: None, ..p };
            match reply.redirect {
                Some(redirect) => {
                    let moved = redirected(settled, redirect);
                    if p.mutation {
                        (moved, OutcomeView { next: NextView::Retransact, invalidate: false })
                    } else {
                        (another(moved), OutcomeView { next: NextView::Again, invalidate: false })
                    }
                },
                None => (settled, concluded(settled, reply)),
            }
        },
    }
}

/// The request after what it waited for, and what to do.
pub open spec fn resumed(p: PlanView, outcome: Result<(), Error>) -> (PlanView, NextView) {
    match outcome {
        Ok(_) => (another(p), NextView::Again),
        Err(error) => (p, NextView::Done(Err(or_unknown(error, p.prior_unknown)))),
    }
}

impl Plan {
    fn unanswered(&mut self, error: Error, closed: bool) -> (r: Outcome)
        requires
            old(self).wf(),
            old(self).attempt < MAX_ATTEMPTS,
        ensures
            final(self).wf(),
            final(self).attempt < MAX_ATTEMPTS,
            (final(self)@, r@) == unanswered(old(self)@, error, closed),
    {
        if error == Error::QueueSaturated {
            return ending(preserve_unknown(error, self.prior_unknown), false);
        }
        if closed {
            return ending(preserve_unknown(Error::Closed, self.prior_unknown), true);
        }
        if let Error::OutcomeUnknown(cause) = error {
            let first = match self.prior_unknown {
                Some(prior) => prior,
                None => cause,
            };
            self.prior_unknown = Some(first);
            if self.retry_unknown {
                return Outcome { next: Next::AwaitPrimary, invalidate: true };
            }
            return ending(Error::OutcomeUnknown(first), true);
        }
        if error == Error::Timeout || error == Error::Cancelled {
            return ending(preserve_unknown(error, self.prior_unknown), true);
        }
        Outcome { next: Next::Refresh { epoch: self.placement.epoch }, invalidate: true }
    }

    fn unreliable(&self) -> (r: Error)
        ensures
            r == unreliable(self@),
    {
        if self.mutation {
            Error::OutcomeUnknown(UnknownCause::Transport)
        } else {
            Error::MalformedReply
        }
    }

    fn redirect(&mut self, redirect: Redirect)
        requires
            old(self).wf(),
        ensures
            final(self).wf(),
            final(self).attempt == old(self).attempt,
            final(self)@ == redirected(old(self)@, redirect@),
    {
        self.flags = self.flags | (FLAG_REDIRECTED | FLAG_IGNORE_CACHE | FLAG_IGNORE_OVERLAY);
        if !self.group {
            self.target.pool_id = redirect.pool;
            if redirect.object.len() > 0 {
                self.target.object = redirect.object;
            }
            self.target.locator = redirect.locator;
            self.target.namespace = redirect.namespace;
        }
        assert(self@ =~= redirected(old(self)@, redirect@));
    }

    fn asks_to_try_again(reply: &Reply) -> (r: bool)
        ensures
            r == any_try_again(reply@.operations),
    {
        let ghost results = reply@.operations;
        let mut i: usize = 0;
        while i < reply.operations.len()
            invariant
                i <= reply.operations@.len(),
                results == reply@.operations,
                forall|j: int| 0 <= j < i ==> (#[trigger] results[j]).code != TRY_AGAIN,
            decreases reply.operations@.len() - i,
        {
            assert(results[i as int] == reply.operations@[i as int]@);
            if reply.operations[i].code == TRY_AGAIN {
                return true;
            }
            i = i + 1;
        }
        false
    }

    fn failed_operation(&self, reply: &Reply) -> (r: Option<i32>)
        requires
            reply.operations@.len() == self.operations@.len(),
        ensures
            r == first_failure(reply@.operations, self@.operations, 0),
    {
        let ghost results = reply@.operations;
        let ghost ops = self@.operations;
        let mut i: usize = 0;
        while i < self.operations.len()
            invariant
                i <= self.operations@.len(),
                reply.operations@.len() == self.operations@.len(),
                results == reply@.operations,
                ops == self@.operations,
                first_failure(results, ops, 0) == first_failure(results, ops, i as int),
            decreases self.operations@.len() - i,
        {
            assert(results[i as int] == reply.operations@[i as int]@);
            assert(ops[i as int] == self.operations@[i as int]@);
            let code: i32 = reply.operations[i].code;
            if code < 0 && self.operations[i].flags() & OP_FLAG_FAIL_OK == 0 {
                return Some(code);
            }
            i = i + 1;
        }
        None
    }

    fn conclude(&self, reply: Reply) -> (r: Outcome)
        requires
            self.wf(),
        ensures
            r@ == concluded(self@, reply@),
    {
        if reply.result == TRY_AGAIN {
            return Outcome {
                next: Next::Refresh { epoch: self.placement.epoch },
                invalidate: false,
            };
        }
        if validate_results(&reply, self.operations.as_slice(), self.codes.as_slice()).is_err() {
            return ending(self.unreliable(), true);
        }
        if Self::asks_to_try_again(&reply) {
            return Outcome {
                next: Next::Refresh { epoch: self.placement.epoch },
                invalidate: false,
            };
        }
        if self.durable && validate_durable_reply(&reply).is_err() {
            return ending(Error::OutcomeUnknown(UnknownCause::Transport), true);
        }
        if reply.result < 0 {
            return ending(Error::WireErrno(reply.result), false);
        }
        match self.failed_operation(&reply) {
            Some(code) => ending(Error::WireErrno(code), false),
            None => Outcome {
                next: Next::Done(
                    Ok(CompoundResult { operations: reply.operations, version: reply.version }),
                ),
                invalidate: false,
            },
        }
    }

    fn answered(&mut self, message: &Message, limits: Limits) -> (r: Outcome)
        requires
            old(self).wf(),
            old(self).attempt < MAX_ATTEMPTS,
        ensures
            final(self).wf(),
            (final(self)@, r@) == answered(old(self)@, message@, limits),
            !(r.next is Again) ==> final(self).attempt < MAX_ATTEMPTS,
    {
        let reply = match decode_reply(message, limits) {
            Ok(reply) => reply,
            Err(_) => {
                return ending(self.unreliable(), true);
            },
        };
        if validate_target(
            &reply,
            self.target.object.as_slice(),
            self.placement.pg,
            self.attempt,
        ).is_err() {
            return ending(self.unreliable(), true);
        }
        self.prior_unknown = None;
        assert(self@ =~= (PlanView { prior_unknown: None, ..old(self)@ }));
        let mut reply = reply;
        match reply.redirect {
            Some(redirect) => {
                self.redirect(redirect);
                if self.mutation {
                    return Outcome { next: Next::Retransact, invalidate: false };
                }
                let ghost moved = self@;
                self.attempt = self.attempt + 1;
                assert(self@ =~= another(moved));
                Outcome { next: Next::Again, invalidate: false }
            },
            None => {
                reply.redirect = None;
                self.conclude(reply)
            },
        }
    }

    /// Takes what came of an attempt: a message or an error. `closed` says whether the client has
    /// been closed meanwhile.
    pub fn submitted(&mut self, result: Result<Message, Error>, closed: bool, limits: Limits) -> (r:
        Outcome)
        requires
            old(self).wf(),
            old(self).attempt < MAX_ATTEMPTS,
        ensures
            final(self).wf(),
            (final(self)@, r@) == match result {
                Ok(message) => answered(old(self)@, message@, limits),
                Err(error) => unanswered(old(self)@, error, closed),
            },
            !(r.next is Again) ==> final(self).attempt < MAX_ATTEMPTS,
    {
        match result {
            Ok(message) => self.answered(&message, limits),
            Err(error) => self.unanswered(error, closed),
        }
    }

    /// Goes on after a map was waited for.
    pub fn refreshed(&mut self, outcome: Result<(), Error>) -> (r: Next)
        requires
            old(self).wf(),
            old(self).attempt < MAX_ATTEMPTS,
        ensures
            final(self).wf(),
            (final(self)@, r@) == resumed(old(self)@, outcome),
    {
        match outcome {
            Ok(()) => {
                self.attempt = self.attempt + 1;
                assert(self@ =~= another(old(self)@));
                Next::Again
            },
            Err(error) => Next::Done(Err(preserve_unknown(error, self.prior_unknown))),
        }
    }

    /// Goes on after another primary was waited for, which took over or did not.
    pub fn primary_changed(&mut self, changed: bool) -> (r: Next)
        requires
            old(self).wf(),
            old(self).attempt < MAX_ATTEMPTS,
            old(self).prior_unknown is Some,
        ensures
            final(self).wf(),
            (final(self)@, r@) == resumed(
                old(self)@,
                if changed {
                    Ok(())
                } else {
                    Err(Error::OutcomeUnknown(old(self)@.prior_unknown->0))
                },
            ),
    {
        if changed {
            self.attempt = self.attempt + 1;
            assert(self@ =~= another(old(self)@));
            Next::Again
        } else {
            Next::Done(Err(preserve_unknown(Error::NotConnected, self.prior_unknown)))
        }
    }

    /// Goes on with a new transaction after a change was redirected.
    pub fn retransact(&mut self, transaction: Result<u64, Error>) -> (r: Next)
        requires
            old(self).wf(),
            old(self).attempt < MAX_ATTEMPTS,
        ensures
            final(self).wf(),
            match transaction {
                Ok(transaction_id) => final(self)@ == another(
                    PlanView { transaction_id, ..old(self)@ },
                ) && r@ == NextView::Again,
                Err(error) => final(self)@ == old(self)@ && r@ == NextView::Done(Err(error)),
            },
    {
        match transaction {
            Ok(transaction_id) => {
                self.transaction_id = transaction_id;
                self.attempt = self.attempt + 1;
                assert(self@ =~= another(PlanView { transaction_id, ..old(self)@ }));
                Next::Again
            },
            Err(error) => Next::Done(Err(error)),
        }
    }
}

// ---------------------------------------------------------------------------
// Waiting for another primary
// ---------------------------------------------------------------------------

/// A wait for another primary than the one that a request was sent to.
#[derive(Clone, Copy, Debug, PartialEq, Eq, Structural)]
pub struct PrimaryWait {
    pub previous: i32,
    pub epoch: u32,
    pub rounds: usize,
}

/// Whether another primary has taken over, or that a map after an epoch has to be waited for first.
#[derive(Clone, Copy, Debug, PartialEq, Eq, Structural)]
pub enum WaitStep {
    Changed(bool),
    Refresh { epoch: u32 },
}

/// The wait after a look at the map: its epoch, and the primary that it has for the request. A
/// primary that is none does not count.
pub open spec fn looking(w: PrimaryWait, going: bool, map: Option<(u32, Option<i32>)>) -> (
    PrimaryWait,
    WaitStep,
) {
    if w.rounds >= MAX_ATTEMPTS || !going {
        (w, WaitStep::Changed(false))
    } else {
        match map {
            None => (w, WaitStep::Changed(false)),
            Some((epoch, primary)) => if primary matches Some(daemon) && daemon != w.previous {
                (w, WaitStep::Changed(primary->0 >= 0))
            } else {
                let newest = if epoch > w.epoch {
                    epoch
                } else {
                    w.epoch
                };
                (
                    PrimaryWait { epoch: newest, rounds: (w.rounds + 1) as usize, ..w },
                    WaitStep::Refresh { epoch: newest },
                )
            },
        }
    }
}

impl PrimaryWait {
    pub fn new(previous: i32, epoch: u32) -> (r: Self)
        ensures
            r == (PrimaryWait { previous, epoch, rounds: 0 }),
    {
        PrimaryWait { previous, epoch, rounds: 0 }
    }

    /// Looks at the map. `going` says whether the caller has neither cancelled nor run out of time.
    pub fn look(&mut self, going: bool, map: Option<(u32, Option<i32>)>) -> (r: WaitStep)
        ensures
            (*final(self), r) == looking(*old(self), going, map),
    {
        if self.rounds >= MAX_ATTEMPTS || !going {
            return WaitStep::Changed(false);
        }
        match map {
            None => WaitStep::Changed(false),
            Some((epoch, primary)) => {
                if let Some(daemon) = primary {
                    if daemon != self.previous {
                        return WaitStep::Changed(daemon >= 0);
                    }
                }
                if epoch > self.epoch {
                    self.epoch = epoch;
                }
                self.rounds = self.rounds + 1;
                WaitStep::Refresh { epoch: self.epoch }
            },
        }
    }
}

/// What a wait for a map comes to that was only for the better: it ends the request if the caller
/// cancelled it, or has cancelled or run out of time since.
pub fn best_effort(refresh: Result<(), Error>, canceled: bool, expired: bool) -> (r: Result<
    (),
    Error,
>)
    ensures
        r == if canceled || refresh == Err::<(), Error>(Error::Cancelled) {
            Err::<(), Error>(Error::Cancelled)
        } else if expired {
            Err(Error::Timeout)
        } else {
            Ok(())
        },
{
    if let Err(Error::Cancelled) = refresh {
        return Err(Error::Cancelled);
    }
    check_options(canceled, expired)
}

// ---------------------------------------------------------------------------
// What holds of every request
// ---------------------------------------------------------------------------

/// No request is sent more often than the limit says: an attempt that starts is below it, and every
/// way to another attempt counts one.
pub proof fn law_attempts_are_bounded(
    p: PlanView,
    closed: bool,
    canceled: bool,
    expired: bool,
    route: Result<Placement, RouteFault>,
    error: Error,
    m: MessageView,
    limits: Limits,
    outcome: Result<(), Error>,
)
    ensures
        attempting(p, closed, canceled, expired, route).1 is Ok ==> p.attempt < MAX_ATTEMPTS,
        answered(p, m, limits).1.next is Again ==> answered(p, m, limits).0.attempt == p.attempt
            + 1,
        unanswered(p, error, closed).0.attempt == p.attempt,
        !(unanswered(p, error, closed).1.next is Again),
        resumed(p, outcome).1 is Again ==> resumed(p, outcome).0.attempt == p.attempt + 1,
{
}

/// Once it is not known whether an attempt took effect, no error but that is reported until a reply
/// comes.
pub proof fn law_unknown_outcome_is_kept(
    p: PlanView,
    closed: bool,
    canceled: bool,
    expired: bool,
    route: Result<Placement, RouteFault>,
    error: Error,
    outcome: Result<(), Error>,
)
    requires
        p.prior_unknown is Some,
    ensures
        attempting(p, closed, canceled, expired, route).1 matches Err(e) ==> e
            == Error::OutcomeUnknown(p.prior_unknown->0),
        unanswered(p, error, closed).1.next matches NextView::Done(Err(e)) ==> e
            == Error::OutcomeUnknown(p.prior_unknown->0),
        unanswered(p, error, closed).0.prior_unknown == p.prior_unknown,
        resumed(p, outcome).1 matches NextView::Done(Err(e)) ==> e == Error::OutcomeUnknown(
            p.prior_unknown->0,
        ),
        attempting(p, closed, canceled, expired, route).0.prior_unknown == p.prior_unknown,
{
}

/// A call or a notification whose outcome is not known is never sent again.
pub proof fn law_unrepeatable_requests_are_not_sent_again(
    p: PlanView,
    cause: UnknownCause,
    closed: bool,
)
    requires
        !p.retry_unknown,
    ensures
        unanswered(p, Error::OutcomeUnknown(cause), closed).1.next is Done,
{
}

/// A request that may be sent again is not, until another primary has taken over.
pub proof fn law_unknown_requests_wait_for_another_primary(
    p: PlanView,
    cause: UnknownCause,
    w: PrimaryWait,
    going: bool,
    map: Option<(u32, Option<i32>)>,
)
    ensures
        unanswered(p, Error::OutcomeUnknown(cause), false).1.next is AwaitPrimary
            || unanswered(p, Error::OutcomeUnknown(cause), false).1.next is Done,
        looking(w, going, map).1 == WaitStep::Changed(true) ==> (map matches Some((_, Some(primary)))
            && primary != w.previous && primary >= 0),
        looking(w, going, map).1 is Refresh ==> looking(w, going, map).0.rounds == w.rounds + 1
            && w.rounds < MAX_ATTEMPTS,
{
}

/// A change that is reported as done with the result zero is on disk, and a reply that cannot be
/// read never says that a change failed.
pub proof fn law_reported_changes_are_durable(p: PlanView, m: MessageView, limits: Limits)
    requires
        p.mutation,
        p.durable,
    ensures
        answered(p, m, limits).1.next matches NextView::Done(Ok(_)) ==> (reply_decoding(
            m,
            limits,
        ) matches Ok(reply) && !unsettled(reply) && reply.result >= 0),
        reply_decoding(m, limits) is Err ==> answered(p, m, limits).1.next == NextView::Done(
            Err(Error::OutcomeUnknown(UnknownCause::Transport)),
        ),
{
}

/// A redirected change is sent under a transaction of its own, and anything else under the one that
/// it has.
pub proof fn law_transactions_change_with_redirects(p: PlanView, m: MessageView, limits: Limits)
    ensures
        answered(p, m, limits).0.transaction_id == p.transaction_id,
        answered(p, m, limits).1.next is Retransact ==> p.mutation,
        p.mutation ==> !(answered(p, m, limits).1.next is Again),
{
}

// ---------------------------------------------------------------------------
// Views
// ---------------------------------------------------------------------------

/// What stands for a value of this type has its fields.
pub proof fn law_plan_has_its_fields(x: Plan)
    ensures
        x@.target == x.target@,
        x@.operations == (operations_view(x.operations@)),
        x@.codes == x.codes@,
        x@.transaction_id == x.transaction_id,
        x@.mutation == x.mutation,
        x@.durable == x.durable,
        x@.retry_unknown == x.retry_unknown,
        x@.group == x.group,
        x@.group_seed == x.group_seed,
        x@.route_hash == x.route_hash,
        x@.flags == x.flags,
        x@.attempt == (x.attempt as int),
        x@.prior_unknown == x.prior_unknown,
        x@.placement == x.placement,
{
}

/// What stands for a value of this type is its case, with what it holds.
pub proof fn law_next_is_its_case(x: &Next)
    ensures
        x@ == (match x {
                Next::Again => NextView::Again,
                Next::Refresh { epoch } => NextView::Refresh { epoch: *epoch },
                Next::AwaitPrimary => NextView::AwaitPrimary,
                Next::Retransact => NextView::Retransact,
                Next::Done(Ok(result)) => NextView::Done(Ok(result@)),
                Next::Done(Err(error)) => NextView::Done(Err(*error)),
            }),
{
}

/// What stands for a value of this type has its fields.
pub proof fn law_outcome_has_its_fields(x: Outcome)
    ensures
        x@.next == x.next@,
        x@.invalidate == x.invalidate,
{
}

} // verus!
