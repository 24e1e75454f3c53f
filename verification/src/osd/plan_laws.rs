//! How requests and commands are planned, sent again and ended.


use super::client::{
    command_failure, data_size, given_up, message_failure, mutable_request, or_unknown,
    outcome_sensitive, readable_length, repeatable, request_failure, results_match, routable,
    session_failure, wire_failure, Error, Mutation, TargetView, UnknownCause,
};
use super::command::Error as CommandError;
use super::command_plan::{
    attempt_failure, command_answered, command_route, command_unanswered, CommandNextView,
    CommandRoute, CommandTarget, MapFacts,
};
use super::inconsistent::InconsistentView;
use super::messages::{
    mutates, operation_data, operation_flags, operation_route, operations_view, reply_decoding,
    Error as MessageError, Limits, OperationResultView, OperationView, RedirectView, ReplyView,
    Request,
};
use super::pager::{first_page, paging, same_object, PagerView};
use super::routing::{
    answered, attempting, carries, concluded, first_failure, group_plan, initial_flags, looking,
    object_plan, place_of, resumed, routed, unanswered, NextView, OutcomeView, Placement,
    PlanView, PrimaryWait, RouteFacts, RouteFault, WaitStep,
};
use crate::msgr::message::MessageView;
use crate::msgr::session_model::SessionError;
use crate::protocol::address::{endpoint_of, AddressView};
use crate::wire::WireError;
use vstd::prelude::*;

verus! {

// ---------------------------------------------------------------------------
// Plans
// ---------------------------------------------------------------------------

/// A request about an object is for that object and does the operations that are given, under the
/// transaction that is given. Only one that changes the object brings the snapshots to write under.
/// It is durable if an operation changes anything, and may be sent again with its outcome unknown
/// unless one of the operations is a call or a notification.
pub proof fn law_object_plan_is_as_asked(
    target: TargetView,
    ops: Seq<OperationView>,
    codes: Seq<u16>,
    transaction_id: u64,
    mutation: bool,
)
    ensures
        ({
            let p = object_plan(target, ops, codes, transaction_id, mutation);
            &&& p.operations == ops
            &&& p.codes == codes
            &&& p.transaction_id == transaction_id
            &&& p.mutation == mutation
            &&& (p.target.pool_id, p.target.object, p.target.locator, p.target.namespace,
                p.target.snapshot) == (
                target.pool_id,
                target.object,
                target.locator,
                target.namespace,
                target.snapshot,
            )
            &&& mutation ==> p.target.snapshot_sequence == target.snapshot_sequence
                && p.target.write_snapshots == target.write_snapshots
            &&& !mutation ==> p.target.snapshot_sequence == 0 && p.target.write_snapshots.len()
                == 0
            &&& p.durable <==> exists|i: int|
                0 <= i < ops.len() && mutates(#[trigger] ops[i])
            &&& p.retry_unknown <==> forall|i: int|
                0 <= i < ops.len() ==> repeatable(#[trigger] ops[i])
            &&& !p.group
            &&& p.attempt == 0
            &&& p.prior_unknown is None
            &&& ops.len() > 0 ==> p.route_hash == operation_route(ops[0])
        }),
{
}

/// Requests of one operation about an object have no flags of their own; several ask for all
/// results; and those that go by a hash say so.
pub proof fn law_plans_have_their_flags(ops: Seq<OperationView>)
    requires
        ops.len() > 0,
    ensures
        operation_route(ops[0]) is None && ops.len() == 1 ==> initial_flags(ops) == 0,
        operation_route(ops[0]) is None && ops.len() > 1 ==> initial_flags(ops) == 0x400_0000,
        operation_route(ops[0]) is Some && ops.len() == 1 ==> initial_flags(ops) == 0x2_0400,
        operation_route(ops[0]) is Some && ops.len() > 1 ==> initial_flags(ops) == 0x402_0400,
{
    assert(0x0400u32 | 0x2_0000u32 == 0x2_0400u32) by (bit_vector);
    assert(0x2_0400u32 | 0x400_0000u32 == 0x402_0400u32) by (bit_vector);
    assert(0u32 | 0x400_0000u32 == 0x400_0000u32) by (bit_vector);
}

/// A request about a placement group is for that group, as it is now, and changes nothing.
pub proof fn law_group_plan_is_as_asked(
    pool_id: i64,
    seed: u32,
    ops: Seq<OperationView>,
    codes: Seq<u16>,
    transaction_id: u64,
)
    ensures
        ({
            let p = group_plan(pool_id, seed, ops, codes, transaction_id);
            &&& p.target.pool_id == pool_id
            &&& p.target.object.len() == 0
            &&& p.target.locator.len() == 0
            &&& p.target.namespace.len() == 0
            &&& p.target.snapshot == 0xffff_ffff_ffff_fffe
            &&& p.target.snapshot_sequence == 0 && p.target.write_snapshots.len() == 0
            &&& p.operations == ops
            &&& p.codes == codes
            &&& p.transaction_id == transaction_id
            &&& p.group && p.group_seed == seed
            &&& !p.mutation && !p.durable
            &&& p.attempt == 0 && p.prior_unknown is None && p.route_hash is None
            &&& ops.len() <= 1 ==> p.flags == 0x400
            &&& ops.len() > 1 ==> p.flags == 0x400_0400
        }),
{
    assert(0x0400u32 | 0x400_0000u32 == 0x400_0400u32) by (bit_vector);
}

/// Only calls and notifications may not be repeated. A request is sensitive to its outcome if it
/// changes something or notifies. Flags make no difference to either.
pub proof fn law_calls_and_notifications_are_not_repeated(op: OperationView)
    ensures
        op matches OperationView::WithFlags { operation, .. } ==> repeatable(op) == repeatable(
            *operation,
        ) && outcome_sensitive(op) == outcome_sensitive(*operation),
        !(op is WithFlags) ==> (!repeatable(op) <==> op is Call || op is Notify || op is NotifyAck),
        !(op is WithFlags) ==> (outcome_sensitive(op) <==> mutates(op) || op is Notify || op
            is NotifyAck),
{
}

/// A change is the operation of its name, with its arguments.
pub proof fn law_change_is_its_operation(change: Mutation<'_>)
    ensures
        change matches Mutation::Create { exclusive } ==> change.operation() == (
        OperationView::Create { exclusive }),
        change matches Mutation::Write { offset, data } ==> change.operation() == (
        OperationView::Write { offset, data: data@ }),
        change matches Mutation::WriteFull(data) ==> change.operation() == OperationView::WriteFull(
            data@,
        ),
        change matches Mutation::Append(data) ==> change.operation() == OperationView::Append(
            data@,
        ),
        change matches Mutation::Truncate { size } ==> change.operation() == (
        OperationView::Truncate { size }),
        change matches Mutation::Zero { offset, length } ==> change.operation() == (
        OperationView::Zero { offset, length }),
        change is Remove ==> change.operation() == OperationView::Remove,
{
}

/// A read is asked for where its end is a number and the reply fits. A change is asked for of the
/// object itself, with at least one operation that matters and no more than allowed, whose data
/// fits.
pub proof fn law_requests_are_checked(
    object: nat,
    offset: u64,
    length: u64,
    snapshot: u64,
    ops: Seq<OperationView>,
    max_operations: u32,
    max_bytes: u32,
)
    ensures
        readable_length(object, offset, length, max_bytes) <==> offset + length
            <= 0xffff_ffff_ffff_ffff && 144 + object + length <= max_bytes,
        mutable_request(snapshot, ops, max_operations, max_bytes) ==> snapshot
            == 0xffff_ffff_ffff_fffe && 1 <= ops.len() <= max_operations && data_size(ops)
            <= max_bytes,
        mutable_request(snapshot, ops, max_operations, max_bytes) ==> exists|i: int|
            0 <= i < ops.len() && outcome_sensitive(#[trigger] ops[i]),
        snapshot == 0xffff_ffff_ffff_fffe && 1 <= ops.len() <= max_operations && data_size(ops)
            <= max_bytes && outcome_sensitive(ops[0]) ==> mutable_request(
            snapshot,
            ops,
            max_operations,
            max_bytes,
        ),
        ops.len() > 0 ==> data_size(ops) == data_size(ops.drop_last()) + operation_data(
            ops.last(),
        ).len(),
        ops.len() == 0 ==> data_size(ops) == 0,
{
    if ops.len() > 0 && outcome_sensitive(ops[0]) {
        assert(outcome_sensitive(ops[0]));
    }
}

// ---------------------------------------------------------------------------
// Attempts
// ---------------------------------------------------------------------------

/// An attempt is made, up to four times, unless the client is closed, the request was cancelled or
/// its time is up, and where the map names a primary. The request then goes where the map says, and
/// from the second attempt on it says that it is a repetition.
pub proof fn law_attempt_goes_where_the_map_says(
    p: PlanView,
    closed: bool,
    canceled: bool,
    expired: bool,
    route: Result<Placement, RouteFault>,
)
    ensures
        ({
            let (after, outcome) = attempting(p, closed, canceled, expired, route);
            &&& outcome is Ok <==> p.attempt < 4 && !closed && !canceled && !expired && route is Ok
                && route->Ok_0.acting_primary >= 0
            &&& outcome is Ok ==> after == (PlanView {
                placement: route->Ok_0,
                flags: after.flags,
                ..p
            })
            &&& outcome is Ok && p.attempt <= 0 ==> after.flags == p.flags
            &&& outcome is Ok && p.attempt > 0 ==> after.flags == p.flags | 0x8u32
            &&& outcome is Err ==> after == p
            &&& p.prior_unknown is None && p.attempt >= 4 ==> outcome == Err::<(), Error>(
                Error::RecoveryExhausted,
            )
            &&& p.prior_unknown is None && p.attempt < 4 && closed ==> outcome == Err::<(), Error>(
                Error::Closed,
            )
            &&& p.prior_unknown is None && p.attempt < 4 && !closed && canceled ==> outcome
                == Err::<(), Error>(Error::Cancelled)
            &&& p.prior_unknown is None && p.attempt < 4 && !closed && !canceled && expired
                ==> outcome == Err::<(), Error>(Error::Timeout)
            &&& p.prior_unknown is None && p.attempt < 4 && !closed && !canceled && !expired ==> {
                &&& route == Err::<Placement, RouteFault>(RouteFault::NoMap) ==> outcome
                    == Err::<(), Error>(Error::NotConnected)
                &&& route == Err::<Placement, RouteFault>(RouteFault::NoPool) ==> outcome
                    == Err::<(), Error>(Error::WireErrno(-2i32))
                &&& route == Err::<Placement, RouteFault>(RouteFault::NoPlace) ==> outcome
                    == Err::<(), Error>(Error::NoPrimary)
            }
        }),
{
}

/// A route is found where there is a map, a place and an address, and for a group also the pool.
pub proof fn law_route_needs_a_map(group: bool, facts: Option<RouteFacts>)
    ensures
        routed(group, facts) is Ok <==> facts is Some && (group ==> facts->0.pool_exists)
            && facts->0.placement is Some && facts->0.has_addresses,
        routed(group, facts) matches Ok(placement) ==> facts->0.placement == Some(placement),
        facts is None ==> routed(group, facts) == Err::<Placement, RouteFault>(RouteFault::NoMap),
        facts is Some && group && !facts->0.pool_exists ==> routed(group, facts) == Err::<
            Placement,
            RouteFault,
        >(RouteFault::NoPool),
{
}

/// A request carries what its plan says: where it goes, what it is about, who asks, under which
/// transaction, in which attempt, and what it does.
pub proof fn law_request_is_that_of_its_plan(
    r: Request<'_>,
    p: PlanView,
    global_id: u64,
    incarnation: i32,
    features: u64,
)
    ensures
        carries(r, p, global_id, incarnation, features) <==> {
            &&& (r.map_epoch, r.pg, r.shard, r.sharded, r.object_hash) == (
                p.placement.epoch,
                p.placement.pg,
                p.placement.primary_shard,
                p.placement.sharded,
                p.placement.raw_hash,
            )
            &&& (r.pool_id, r.object@, r.locator@, r.namespace@) == (
                p.target.pool_id,
                p.target.object,
                p.target.locator,
                p.target.namespace,
            )
            &&& (r.snapshot, r.snapshot_sequence, r.write_snapshots@) == (
                p.target.snapshot,
                p.target.snapshot_sequence,
                p.target.write_snapshots,
            )
            &&& (r.client_global_id, r.client_incarnation, r.features) == (
                global_id,
                incarnation,
                features,
            )
            &&& r.transaction_id == p.transaction_id
            &&& r.retry == p.attempt
            &&& r.flags == p.flags
            &&& operations_view(r.operations@) == p.operations
        },
{
}

/// A request has its place among the objects of a placement group: by its name, its locator, its
/// namespace, its snapshot and its pool, and by the hash that it is routed by, which is that of the
/// object unless it has one of its own.
pub proof fn law_request_has_a_place(p: PlanView)
    ensures
        ({
            let h = place_of(p);
            &&& h.object == p.target.object
            &&& h.key == p.target.locator
            &&& h.namespace == p.target.namespace
            &&& h.snapshot == p.target.snapshot
            &&& h.pool == p.target.pool_id
            &&& !h.max
            &&& p.route_hash matches Some(hash) ==> h.hash == hash
            &&& p.route_hash is None ==> h.hash == p.placement.raw_hash
        }),
{
}

// ---------------------------------------------------------------------------
// Answers
// ---------------------------------------------------------------------------

/// What is done without an answer. A request that was not taken in ends at once, and the session
/// stays. A closed client ends it. One whose outcome is not known is sent again to another primary,
/// if it may be. One that was given up ends. Any other failure calls for a newer map.
pub proof fn law_unanswered_requests_are_dealt_with(p: PlanView, error: Error, closed: bool)
    ensures
        ({
            let (after, o) = unanswered(p, error, closed);
            &&& error == Error::QueueSaturated ==> after == p && !o.invalidate && o.next
                == NextView::Done(Err(or_unknown(Error::QueueSaturated, p.prior_unknown)))
            &&& error != Error::QueueSaturated ==> o.invalidate
            &&& error != Error::QueueSaturated && closed ==> after == p && o.next == NextView::Done(
                Err(or_unknown(Error::Closed, p.prior_unknown)),
            )
            &&& !closed && (error == Error::Timeout || error == Error::Cancelled) ==> after == p
                && o.next == NextView::Done(Err(or_unknown(error, p.prior_unknown)))
            &&& !closed && error is OutcomeUnknown ==> {
                &&& after.prior_unknown == if p.prior_unknown is Some {
                    p.prior_unknown
                } else {
                    Some(error->OutcomeUnknown_0)
                }
                &&& after == (PlanView { prior_unknown: after.prior_unknown, ..p })
                &&& p.retry_unknown ==> o.next is AwaitPrimary
                &&& !p.retry_unknown ==> o.next == NextView::Done(
                    Err(Error::OutcomeUnknown(after.prior_unknown->0)),
                )
            }
            &&& !closed && error != Error::QueueSaturated && error != Error::Timeout && error
                != Error::Cancelled && !(error is OutcomeUnknown) ==> after == p && o.next == (
            NextView::Refresh { epoch: p.placement.epoch })
        }),
{
}

/// What was unknown before stays unknown, for the first reason; any other error is what it is.
pub proof fn law_first_unknown_is_kept(error: Error, prior: Option<UnknownCause>)
    ensures
        prior matches Some(cause) ==> or_unknown(error, prior) == Error::OutcomeUnknown(cause),
        prior is None ==> or_unknown(error, prior) == error,
{
}

/// A reply is taken only from the daemon that was asked: it must be about the object and the group
/// of the request, and of this attempt if it says of which. Otherwise, and where it cannot be read,
/// a change is of unknown outcome, and a read failed.
pub proof fn law_strange_replies_are_not_taken(p: PlanView, m: MessageView, limits: Limits)
    ensures
        ({
            let reply = reply_decoding(m, limits);
            let strange = reply is Err || reply->Ok_0.object != p.target.object || reply->Ok_0.pg
                != p.placement.pg || (reply->Ok_0.retry >= 0 && reply->Ok_0.retry != p.attempt);
            &&& strange ==> answered(p, m, limits).0 == p && answered(p, m, limits).1.invalidate
            &&& strange && p.mutation ==> answered(p, m, limits).1.next == NextView::Done(
                Err(Error::OutcomeUnknown(UnknownCause::Transport)),
            )
            &&& strange && !p.mutation ==> answered(p, m, limits).1.next == NextView::Done(
                Err(Error::MalformedReply),
            )
            &&& !strange ==> answered(p, m, limits).0.prior_unknown is None
        }),
{
}

/// A redirected request goes to the pool, locator and namespace of the redirect, and to its object
/// if it names one; one about a group stays with it. It says that it was redirected and that caches
/// are not to be asked.
pub proof fn law_redirects_are_followed(
    p: PlanView,
    m: MessageView,
    limits: Limits,
    redirect: RedirectView,
)
    requires
        reply_decoding(m, limits) matches Ok(reply) && reply.object == p.target.object && reply.pg
            == p.placement.pg && (reply.retry < 0 || reply.retry == p.attempt) && reply.redirect
            == Some(redirect),
    ensures
        ({
            let (after, o) = answered(p, m, limits);
            &&& !p.group ==> {
                &&& after.target.pool_id == redirect.pool
                &&& after.target.locator == redirect.locator
                &&& after.target.namespace == redirect.namespace
                &&& redirect.object.len() > 0 ==> after.target.object == redirect.object
                &&& redirect.object.len() == 0 ==> after.target.object == p.target.object
                &&& after.target.snapshot == p.target.snapshot
                &&& after.target.snapshot_sequence == p.target.snapshot_sequence
                &&& after.target.write_snapshots == p.target.write_snapshots
            }
            &&& p.group ==> after.target == p.target
            &&& after.flags == p.flags | 0x22_8000u32
            &&& after.operations == p.operations && after.codes == p.codes
            &&& p.mutation ==> o.next is Retransact && after.attempt == p.attempt
            &&& !p.mutation ==> o.next is Again && after.attempt == p.attempt + 1
            &&& !o.invalidate
        }),
{
    assert(0x20_0000u32 | 0x8000u32 | 0x2_0000u32 == 0x22_8000u32) by (bit_vector);
}

/// A request succeeds if the reply has a result for each operation, says that nothing failed, and,
/// for a change, that it is on disk. An operation that may fail fails nothing. What succeeds brings
/// the results as they came and the version of the object.
pub proof fn law_success_is_what_the_reply_says(p: PlanView, reply: ReplyView)
    ensures
        ({
            let o = concluded(p, reply);
            let matching = results_match(reply.operations, p.operations, p.codes);
            let again = reply.result == -11 || (matching && exists|i: int|
                0 <= i < reply.operations.len() && (#[trigger] reply.operations[i]).code == -11);
            let on_disk = reply.flags & 4i64 != 0;
            let failed = exists|i: int|
                0 <= i < reply.operations.len() && #[trigger] failing(
                    reply.operations,
                    p.operations,
                    i,
                );
            &&& o.next matches NextView::Done(Ok(c)) ==> c.operations == reply.operations
                && c.version == reply.version && !o.invalidate
            &&& (o.next matches NextView::Done(Ok(_))) <==> !again && matching && !(p.durable
                && reply.result == 0 && !on_disk) && reply.result >= 0 && !failed
            &&& again <==> o.next == (NextView::Refresh { epoch: p.placement.epoch })
            &&& !again && !matching ==> o.invalidate && o.next == NextView::Done(
                Err(
                    if p.mutation {
                        Error::OutcomeUnknown(UnknownCause::Transport)
                    } else {
                        Error::MalformedReply
                    },
                ),
            )
            &&& !again && matching && p.durable && reply.result == 0 && !on_disk ==> o.invalidate
                && o.next == NextView::Done(Err(Error::OutcomeUnknown(UnknownCause::Transport)))
            &&& !again && matching && reply.result < 0 ==> !o.invalidate && o.next
                == NextView::Done(Err(Error::WireErrno(reply.result)))
        }),
{
    lemma_first_failure(reply.operations, p.operations, 0);
    assert(super::messages::FLAG_ON_DISK as i64 == 4i64);
    assert(super::messages::OP_FLAG_FAIL_OK == 2u32);
}

/// The operation at `i` failed, and was not allowed to.
pub open spec fn failing(
    results: Seq<OperationResultView>,
    ops: Seq<OperationView>,
    i: int,
) -> bool {
    results[i].code < 0 && operation_flags(ops[i]) & 2u32 == 0
}

proof fn lemma_first_failure(
    results: Seq<OperationResultView>,
    ops: Seq<OperationView>,
    at: int,
)
    requires
        0 <= at,
    ensures
        first_failure(results, ops, at) is None ==> forall|i: int|
            at <= i < ops.len() && i < results.len() ==> !#[trigger] failing(results, ops, i),
        first_failure(results, ops, at) matches Some(code) ==> exists|i: int|
            at <= i < ops.len() && i < results.len() && #[trigger] failing(results, ops, i)
                && results[i].code == code && forall|j: int|
                at <= j < i ==> !#[trigger] failing(results, ops, j),
    decreases ops.len() - at,
{
    assert(super::messages::OP_FLAG_FAIL_OK == 2u32);
    if at < ops.len() && at < results.len() {
        if failing(results, ops, at) {
            assert(first_failure(results, ops, at) == Some(results[at].code));
        } else {
            lemma_first_failure(results, ops, at + 1);
            assert(first_failure(results, ops, at) == first_failure(results, ops, at + 1));
        }
    }
}

/// A request of several operations fails as the first of them that was not allowed to fail.
pub proof fn law_first_failure_decides(p: PlanView, reply: ReplyView, i: int)
    requires
        results_match(reply.operations, p.operations, p.codes),
        reply.result >= 0,
        !(p.durable && reply.result == 0 && reply.flags & 4i64 == 0),
        forall|j: int|
            0 <= j < reply.operations.len() ==> (#[trigger] reply.operations[j]).code != -11,
        0 <= i < reply.operations.len(),
        failing(reply.operations, p.operations, i),
        forall|j: int| 0 <= j < i ==> !#[trigger] failing(reply.operations, p.operations, j),
    ensures
        concluded(p, reply) == (OutcomeView {
            next: NextView::Done(Err(Error::WireErrno(reply.operations[i].code))),
            invalidate: false,
        }),
{
    assert(super::messages::FLAG_ON_DISK as i64 == 4i64);
    lemma_first_failure(reply.operations, p.operations, 0);
    if first_failure(reply.operations, p.operations, 0) is None {
        assert(!failing(reply.operations, p.operations, i));
    } else {
        let code = first_failure(reply.operations, p.operations, 0)->0;
        let k = choose|k: int|
            0 <= k < p.operations.len() && k < reply.operations.len() && #[trigger] failing(
                reply.operations,
                p.operations,
                k,
            ) && reply.operations[k].code == code && forall|j: int|
                0 <= j < k ==> !#[trigger] failing(reply.operations, p.operations, j);
        if k < i {
            assert(!failing(reply.operations, p.operations, k));
        } else if i < k {
            assert(!failing(reply.operations, p.operations, i));
        }
    }
}

/// The results of a reply are those of the operations, one for each under its code, and a read
/// brings no more than was asked for.
pub proof fn law_results_belong_to_their_operations(
    results: Seq<OperationResultView>,
    ops: Seq<OperationView>,
    codes: Seq<u16>,
    i: int,
)
    requires
        results_match(results, ops, codes),
        0 <= i < ops.len(),
    ensures
        results.len() == ops.len(),
        results[i].operation == codes[i],
        ops[i] matches OperationView::Read { length, .. } ==> results[i].data.len() <= length,
{
    assert(results[i].operation == codes[i]);
}

/// A request goes on after a newer map came, as another attempt, and ends if none does.
pub proof fn law_newer_map_is_another_attempt(p: PlanView, error: Error)
    ensures
        resumed(p, Ok(())).1 is Again,
        resumed(p, Ok(())).0 == (PlanView { attempt: p.attempt + 1, ..p }),
        resumed(p, Err(error)).0 == p,
        resumed(p, Err(error)).1 == NextView::Done(Err(or_unknown(error, p.prior_unknown))),
{
}

/// A request whose outcome is unknown waits, up to four times, for a map in which another daemon is
/// the primary. While the primary is the same or unknown, a map newer than any seen is asked for.
pub proof fn law_primary_is_waited_for(
    w: PrimaryWait,
    going: bool,
    map: Option<(u32, Option<i32>)>,
)
    ensures
        ({
            let (after, step) = looking(w, going, map);
            &&& w.rounds >= 4 || !going || map is None ==> after == w && step == WaitStep::Changed(
                false,
            )
            &&& w.rounds < 4 && going && map is Some ==> {
                let (epoch, primary) = map->0;
                &&& primary is Some && primary->0 != w.previous ==> after == w && step
                    == WaitStep::Changed(primary->0 >= 0)
                &&& primary is None || primary->0 == w.previous ==> {
                    &&& after.previous == w.previous
                    &&& after.rounds == w.rounds + 1
                    &&& after.epoch >= w.epoch && after.epoch >= epoch
                    &&& after.epoch == w.epoch || after.epoch == epoch
                    &&& step == (WaitStep::Refresh { epoch: after.epoch })
                }
            }
        }),
{
}

// ---------------------------------------------------------------------------
// Errors
// ---------------------------------------------------------------------------

/// How the failure of a session appears to a caller: as closed, cancelled, saturated or unsupported
/// where it is, and as not connected otherwise. For a change, and only for one, an unknown outcome
/// is reported as such.
pub proof fn law_session_failures_are_reported(error: SessionError, mutation: bool)
    ensures
        session_failure(error) == Error::Closed <==> error == SessionError::Closed,
        session_failure(error) == Error::Cancelled <==> error == SessionError::Cancelled,
        session_failure(error) == Error::QueueSaturated <==> error == SessionError::QueueSaturated
            || error == SessionError::TooManyInFlight,
        session_failure(error) == Error::Unsupported <==> error == SessionError::UnsupportedFeature
            || error == SessionError::UnsupportedPayload,
        session_failure(error) == Error::Closed || session_failure(error) == Error::Cancelled
            || session_failure(error) == Error::QueueSaturated || session_failure(error)
            == Error::Unsupported || session_failure(error) == Error::NotConnected,
        error == SessionError::OutcomeUnknown && mutation ==> request_failure(error, mutation)
            == Error::OutcomeUnknown(UnknownCause::Transport),
        !(error == SessionError::OutcomeUnknown && mutation) ==> request_failure(error, mutation)
            == session_failure(error),
{
}

/// How an error of a message appears to a caller: what is too long as such, what is malformed as
/// such, and what is of an unknown version as unsupported, of whichever message it is.
pub proof fn law_message_failures_are_reported(
    local: u8,
    required: u8,
    wire: WireError,
    cause: UnknownCause,
)
    ensures
        wire_failure(WireError::LimitExceeded) == Error::LimitExceeded,
        wire_failure(WireError::Malformed) == Error::MalformedReply,
        wire_failure(WireError::UnsupportedVersion { local, required }) == Error::Unsupported,
        message_failure(MessageError::Wire(wire)) == wire_failure(wire),
        message_failure(MessageError::Malformed) == Error::MalformedReply,
        message_failure(MessageError::UnsupportedVersion) == Error::Unsupported,
        command_failure(CommandError::Wire(wire)) == wire_failure(wire),
        command_failure(CommandError::MalformedReply) == Error::MalformedReply,
        command_failure(CommandError::UnsupportedVersion) == Error::Unsupported,
        given_up(cause) == Error::Cancelled <==> cause == UnknownCause::Cancelled,
        given_up(cause) == Error::Timeout <==> cause == UnknownCause::Timeout,
        given_up(cause) == Error::NotConnected <==> cause == UnknownCause::Transport,
{
}

/// The address that is connected to is the first that has an endpoint with a port.
pub proof fn law_first_endpoint_is_connected_to(addresses: Seq<AddressView>)
    ensures
        routable(addresses) matches Some(i) ==> 0 <= i < addresses.len() && reachable(addresses[i])
            && forall|j: int| 0 <= j < i ==> !reachable(#[trigger] addresses[j]),
        routable(addresses) is None ==> forall|j: int|
            0 <= j < addresses.len() ==> !reachable(#[trigger] addresses[j]),
    decreases addresses.len(),
{
    if addresses.len() > 0 {
        let shorter = addresses.drop_last();
        law_first_endpoint_is_connected_to(shorter);
        assert(forall|j: int| 0 <= j < shorter.len() ==> #[trigger] shorter[j] == addresses[j]);
        assert(forall|j: int|
            0 <= j < shorter.len() ==> reachable(#[trigger] addresses[j]) == reachable(shorter[j]));
    }
}

/// An address that can be connected to.
pub open spec fn reachable(a: AddressView) -> bool {
    endpoint_of(a) is Some && endpoint_of(a)->0.port > 0
}

// ---------------------------------------------------------------------------
// Commands
// ---------------------------------------------------------------------------

/// A command to a daemon goes to that daemon, and one to a placement group to its primary, if it has
/// one that can be connected to. A group of no pool does not exist.
pub proof fn law_commands_go_to_their_daemon(target: CommandTarget, facts: MapFacts)
    ensures
        command_route(target, facts) matches Ok(route) ==> route.epoch == facts.epoch
            && facts.has_addresses && (target matches CommandTarget::Osd(id) ==> route.primary
            == id) && (target is Group ==> facts.primary == Some(route.primary) && route.primary
            >= 0 && facts.pool_exists),
        target is Osd ==> (command_route(target, facts) is Ok <==> facts.has_addresses),
        target matches CommandTarget::Group(pg) ==> (command_route(target, facts) is Ok
            <==> pg.pool <= 0x7fff_ffff_ffff_ffff && facts.pool_exists && facts.has_addresses
            && facts.primary is Some && facts.primary->0 >= 0),
        target matches CommandTarget::Group(pg) ==> (command_route(target, facts) == Err::<
            CommandRoute,
            Error,
        >(Error::WireErrno(-2i32)) <==> pg.pool > 0x7fff_ffff_ffff_ffff || !facts.pool_exists),
        command_route(target, facts) matches Err(error) ==> error == Error::WireErrno(-2i32)
            || error == Error::NoPrimary,
{
}

/// An attempt at a command is made, up to four times, unless the client is closed, the command was
/// cancelled or its time is up, and where there is a map and a route.
pub proof fn law_command_attempts_are_bounded(
    attempt: int,
    closed: bool,
    canceled: bool,
    expired: bool,
    route: Option<Result<CommandRoute, Error>>,
)
    ensures
        ({
            let failure = attempt_failure(attempt, closed, canceled, expired, route);
            &&& failure is None <==> attempt < 4 && !closed && !canceled && !expired
                && route is Some && route->0 is Ok
            &&& attempt >= 4 ==> failure == Some(Error::RecoveryExhausted)
            &&& attempt < 4 && closed ==> failure == Some(Error::Closed)
            &&& attempt < 4 && !closed && canceled ==> failure == Some(Error::Cancelled)
            &&& attempt < 4 && !closed && !canceled && expired ==> failure == Some(Error::Timeout)
            &&& attempt < 4 && !closed && !canceled && !expired && route is None ==> failure
                == Some(Error::NotConnected)
            &&& attempt < 4 && !closed && !canceled && !expired && route is Some && route->0 is Err
                ==> failure == Some(route->0->Err_0)
        }),
{
}

/// A command without an answer ends if it was not taken in, if its outcome is not known or if it was
/// given up; any other failure calls for a newer map. The session is given up unless the command was
/// not taken in or its outcome is not known.
pub proof fn law_unanswered_commands_are_dealt_with(epoch: u32, error: Error)
    ensures
        ({
            let o = command_unanswered(epoch, error);
            let ends = error == Error::QueueSaturated || error is OutcomeUnknown || error
                == Error::Timeout || error == Error::Cancelled;
            &&& ends ==> o.next == CommandNextView::Done(Err(error))
            &&& !ends ==> o.next == (CommandNextView::Refresh { epoch })
            &&& o.invalidate <==> error != Error::QueueSaturated && !(error is OutcomeUnknown)
        }),
{
}

/// A command is answered by a reply of its own transaction: by its result, its status and its
/// output, and an error where the result is one. A daemon that asks to try again is asked again with
/// a newer map. Any other reply is malformed.
pub proof fn law_commands_are_answered(
    epoch: u32,
    transaction_id: u64,
    m: MessageView,
    max_bytes: u32,
)
    ensures
        ({
            let reply = super::command::command_decoding(m, max_bytes);
            let o = command_answered(epoch, transaction_id, m, max_bytes);
            let own = reply is Ok && reply->Ok_0.transaction_id == transaction_id;
            &&& !own ==> o.invalidate && o.next == CommandNextView::Done(
                Err(Error::MalformedReply),
            )
            &&& own ==> !o.invalidate
            &&& own && reply->Ok_0.result == -11 ==> o.next == (CommandNextView::Refresh { epoch })
            &&& own && reply->Ok_0.result != -11 ==> (o.next matches CommandNextView::Done(Ok(found))
                && {
                &&& found.0.result == reply->Ok_0.result
                &&& found.0.status == reply->Ok_0.status
                &&& found.0.output == reply->Ok_0.output
                &&& reply->Ok_0.result < 0 ==> found.1 == Some(
                    Error::WireErrno(reply->Ok_0.result),
                )
                &&& reply->Ok_0.result >= 0 ==> found.1 is None
            })
        }),
{
}

// ---------------------------------------------------------------------------
// Pages of inconsistent objects
// ---------------------------------------------------------------------------

/// Findings are collected page by page, within one interval, as many as there is room for. A page
/// that is not full is the last; a full one goes on after its last finding, which must not be the
/// one that it started from.
pub proof fn law_pages_are_collected(p: PagerView, interval: u32, page: Seq<InconsistentView>)
    requires
        p.result.len() + page.len() <= u64::MAX,
    ensures
        ({
            let (after, outcome) = paging(p, interval, page);
            let other = p.interval != 0 && interval != p.interval;
            let full = page.len() >= 1024;
            let room = p.result.len() + page.len() <= p.maximum;
            &&& other ==> after == p && outcome == Err::<bool, Error>(Error::WireErrno(-11i32))
            &&& !other && !room ==> outcome == Err::<bool, Error>(Error::LimitExceeded)
                && after.result == p.result && after.start == p.start
            &&& !other && room ==> after.result == p.result + page
            &&& !other && room && !full ==> outcome == Ok::<bool, Error>(true)
            &&& !other && room && full && same_object(page[page.len() - 1], p.start) ==> outcome
                == Err::<bool, Error>(Error::MalformedReply)
            &&& !other && room && full && !same_object(page[page.len() - 1], p.start) ==> outcome
                == Ok::<bool, Error>(false) && after.start == page[page.len() - 1]
            &&& !other ==> after.interval == interval
            &&& after.maximum == p.maximum
        }),
        first_page(p.maximum).interval == 0,
        first_page(p.maximum).result.len() == 0,
        first_page(p.maximum).maximum == p.maximum,
        first_page(p.maximum).start.object.len() == 0,
{
}

/// Two findings are about one object if its name, namespace, locator and snapshot are the same.
pub proof fn law_findings_are_told_apart(a: InconsistentView, b: InconsistentView)
    ensures
        same_object(a, b) ==> a.object == b.object && a.namespace == b.namespace && a.locator
            == b.locator && a.snapshot == b.snapshot,
        same_object(a, a),
        same_object(a, b) == same_object(b, a),
        !same_object(a, b) ==> a.object != b.object || a.namespace != b.namespace || a.locator
            != b.locator || a.snapshot != b.snapshot,
{
}

} // verus!
