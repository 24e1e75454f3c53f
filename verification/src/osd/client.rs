//! Rules of the client of the storage daemons: what may be asked, what a reply must hold, and what
//! a failure means.

use crate::maps::PG;
use crate::msgr::message::Message;
use crate::msgr::session_model::SessionError;
use crate::osd::command::Error as CommandError;
use crate::osd::messages::{
    all_described, any_mutation, contains_mutation, described, mutates, operation_code,
    operation_data, operations_view, results_view, Error as MessageError, Operation, OperationResult,
    OperationResultView, OperationView, Reply, ReplyView, FLAG_ON_DISK, NO_SNAP,
};
use crate::protocol::address::{endpoint_of, AddressView, Endpoint4, EntityAddrVec};
use crate::random::{random_incarnation, random_nonzero};
use crate::wire::{same_bytes, WireError};
use vstd::prelude::*;
use vstd::slice::slice_to_vec;

verus! {

/// How many times a request is sent.
pub const MAX_ATTEMPTS: usize = 4;

/// How much of the front of a reply to a read is not the object's name.
pub const READ_REPLY_FRONT_BYTES: u64 = 144;

/// The code of a failure that goes away with a newer map.
pub const TRY_AGAIN: i32 = -11;

/// Why it is not known whether a request took effect.
#[derive(Clone, Copy, Debug, PartialEq, Eq, Structural)]
pub enum UnknownCause {
    Cancelled,
    Timeout,
    Transport,
}

#[derive(Clone, Copy, Debug, PartialEq, Eq, Structural)]
pub enum Error {
    Closed,
    NotConnected,
    StaleMap,
    NoPrimary,
    LimitExceeded,
    MalformedReply,
    Unsupported,
    Timeout,
    Cancelled,
    QueueSaturated,
    RecoveryExhausted,
    OutcomeUnknown(UnknownCause),
    WireErrno(i32),
}

// ---------------------------------------------------------------------------
// Targets and results
// ---------------------------------------------------------------------------

/// The object that a request is about, the snapshot to read, and the snapshots to write under.
#[derive(Clone, Debug, PartialEq, Eq)]
pub struct Target {
    pub pool_id: i64,
    pub object: Vec<u8>,
    pub locator: Vec<u8>,
    pub namespace: Vec<u8>,
    pub snapshot: u64,
    pub snapshot_sequence: u64,
    pub write_snapshots: Vec<u64>,
}

#[verifier::ext_equal]
pub struct TargetView {
    pub pool_id: i64,
    pub object: Seq<u8>,
    pub locator: Seq<u8>,
    pub namespace: Seq<u8>,
    pub snapshot: u64,
    pub snapshot_sequence: u64,
    pub write_snapshots: Seq<u64>,
}

impl View for Target {
    type V = TargetView;

    open spec fn view(&self) -> TargetView {
        TargetView {
            pool_id: self.pool_id,
            object: self.object@,
            locator: self.locator@,
            namespace: self.namespace@,
            snapshot: self.snapshot,
            snapshot_sequence: self.snapshot_sequence,
            write_snapshots: self.write_snapshots@,
        }
    }
}

/// A target to read from, without snapshots to write under.
pub open spec fn readable(target: TargetView) -> TargetView {
    TargetView { snapshot_sequence: 0, write_snapshots: Seq::empty(), ..target }
}

impl Target {
    /// This target to read from, without snapshots to write under.
    pub fn for_reading(self) -> (r: Self)
        ensures
            r@ == readable(self@),
    {
        let r = Target { snapshot_sequence: 0, write_snapshots: Vec::new(), ..self };
        assert(r@ =~= readable(self@));
        r
    }
}

#[derive(Clone, Debug, PartialEq, Eq)]
pub struct ReadResult {
    pub data: Vec<u8>,
    pub version: u64,
}

#[derive(Clone, Debug, PartialEq, Eq)]
pub struct CommandResult {
    pub result: i32,
    pub status: String,
    pub output: Vec<u8>,
}

#[derive(Clone, Debug, PartialEq, Eq)]
pub struct CompoundResult {
    pub operations: Vec<OperationResult>,
    pub version: u64,
}

#[verifier::ext_equal]
pub struct ReadView {
    pub data: Seq<u8>,
    pub version: u64,
}

#[verifier::ext_equal]
pub struct CommandView {
    pub result: i32,
    pub status: Seq<char>,
    pub output: Seq<u8>,
}

#[verifier::ext_equal]
pub struct CompoundView {
    pub operations: Seq<OperationResultView>,
    pub version: u64,
}

impl View for ReadResult {
    type V = ReadView;

    open spec fn view(&self) -> ReadView {
        ReadView { data: self.data@, version: self.version }
    }
}

impl View for CommandResult {
    type V = CommandView;

    open spec fn view(&self) -> CommandView {
        CommandView { result: self.result, status: self.status@, output: self.output@ }
    }
}

impl View for CompoundResult {
    type V = CompoundView;

    open spec fn view(&self) -> CompoundView {
        CompoundView { operations: results_view(self.operations@), version: self.version }
    }
}

impl CompoundResult {
    /// The result of the first operation.
    pub fn first(self) -> (r: Result<ReadResult, Error>)
        ensures
            match r {
                Ok(result) => self@.operations.len() > 0 && result@ == (ReadView {
                    data: self@.operations[0].data,
                    version: self@.version,
                }),
                Err(error) => self@.operations.len() == 0 && error == Error::MalformedReply,
            },
    {
        if self.operations.len() == 0 {
            return Err(Error::MalformedReply);
        }
        Ok(
            ReadResult {
                data: slice_to_vec(self.operations[0].data.as_slice()),
                version: self.version,
            },
        )
    }
}

/// A change of an object.
#[derive(Debug, PartialEq, Eq)]
pub enum Mutation<'a> {
    Create { exclusive: bool },
    Write { offset: u64, data: &'a [u8] },
    WriteFull(&'a [u8]),
    Append(&'a [u8]),
    Truncate { size: u64 },
    Zero { offset: u64, length: u64 },
    Remove,
}

impl<'a> Mutation<'a> {
    /// The operation that makes the change.
    pub open spec fn operation(self) -> OperationView {
        match self {
            Mutation::Create { exclusive } => OperationView::Create { exclusive },
            Mutation::Write { offset, data } => OperationView::Write { offset, data: data@ },
            Mutation::WriteFull(data) => OperationView::WriteFull(data@),
            Mutation::Append(data) => OperationView::Append(data@),
            Mutation::Truncate { size } => OperationView::Truncate { size },
            Mutation::Zero { offset, length } => OperationView::Zero { offset, length },
            Mutation::Remove => OperationView::Remove,
        }
    }

    /// How many bytes go with the change.
    pub fn retained_bytes(&self) -> (r: u64)
        ensures
            r == operation_data(self.operation()).len(),
    {
        match self {
            Mutation::Write { data, .. } => data.len() as u64,
            Mutation::WriteFull(data) => data.len() as u64,
            Mutation::Append(data) => data.len() as u64,
            _ => 0,
        }
    }

    pub fn into_owned(self) -> (r: Operation)
        ensures
            r@ == self.operation(),
            mutates(r@),
    {
        match self {
            Mutation::Create { exclusive } => Operation::Create { exclusive },
            Mutation::Write { offset, data } => Operation::Write {
                offset,
                data: slice_to_vec(data),
            },
            Mutation::WriteFull(data) => Operation::WriteFull(slice_to_vec(data)),
            Mutation::Append(data) => Operation::Append(slice_to_vec(data)),
            Mutation::Truncate { size } => Operation::Truncate { size },
            Mutation::Zero { offset, length } => Operation::Zero { offset, length },
            Mutation::Remove => Operation::Remove,
        }
    }
}

// ---------------------------------------------------------------------------
// What failures mean
// ---------------------------------------------------------------------------

/// What the failure of a session means.
pub open spec fn session_failure(error: SessionError) -> Error {
    match error {
        SessionError::Closed => Error::Closed,
        SessionError::Cancelled => Error::Cancelled,
        SessionError::QueueSaturated => Error::QueueSaturated,
        SessionError::TooManyInFlight => Error::QueueSaturated,
        SessionError::UnsupportedFeature => Error::Unsupported,
        SessionError::UnsupportedPayload => Error::Unsupported,
        _ => Error::NotConnected,
    }
}

pub fn map_session_error(error: SessionError) -> (r: Error)
    ensures
        r == session_failure(error),
{
    match error {
        SessionError::Closed => Error::Closed,
        SessionError::Cancelled => Error::Cancelled,
        SessionError::QueueSaturated | SessionError::TooManyInFlight => Error::QueueSaturated,
        SessionError::UnsupportedFeature | SessionError::UnsupportedPayload => Error::Unsupported,
        _ => Error::NotConnected,
    }
}

/// What the failure of a request means: for a change that may have been made, that its outcome is
/// not known.
pub open spec fn request_failure(error: SessionError, mutation: bool) -> Error {
    if mutation && error == SessionError::OutcomeUnknown {
        Error::OutcomeUnknown(UnknownCause::Transport)
    } else {
        session_failure(error)
    }
}

pub fn map_request_error(error: SessionError, mutation: bool) -> (r: Error)
    ensures
        r == request_failure(error, mutation),
{
    if mutation && error == SessionError::OutcomeUnknown {
        Error::OutcomeUnknown(UnknownCause::Transport)
    } else {
        map_session_error(error)
    }
}

pub open spec fn wire_failure(error: WireError) -> Error {
    match error {
        WireError::LimitExceeded => Error::LimitExceeded,
        WireError::Malformed => Error::MalformedReply,
        WireError::UnsupportedVersion { .. } => Error::Unsupported,
    }
}

pub fn map_wire_error(error: WireError) -> (r: Error)
    ensures
        r == wire_failure(error),
{
    match error {
        WireError::LimitExceeded => Error::LimitExceeded,
        WireError::Malformed => Error::MalformedReply,
        WireError::UnsupportedVersion { .. } => Error::Unsupported,
    }
}

pub open spec fn message_failure(error: MessageError) -> Error {
    match error {
        MessageError::Wire(error) => wire_failure(error),
        MessageError::Malformed => Error::MalformedReply,
        MessageError::UnsupportedVersion => Error::Unsupported,
    }
}

pub fn map_message_error(error: MessageError) -> (r: Error)
    ensures
        r == message_failure(error),
{
    match error {
        MessageError::Wire(error) => map_wire_error(error),
        MessageError::Malformed => Error::MalformedReply,
        MessageError::UnsupportedVersion => Error::Unsupported,
    }
}

pub open spec fn command_failure(error: CommandError) -> Error {
    match error {
        CommandError::Wire(error) => wire_failure(error),
        CommandError::MalformedReply => Error::MalformedReply,
        CommandError::UnsupportedVersion => Error::Unsupported,
    }
}

pub fn map_command_message_error(error: CommandError) -> (r: Error)
    ensures
        r == command_failure(error),
{
    match error {
        CommandError::Wire(error) => map_wire_error(error),
        CommandError::MalformedReply => Error::MalformedReply,
        CommandError::UnsupportedVersion => Error::Unsupported,
    }
}

/// An error, unless the outcome of an earlier attempt is not known.
pub open spec fn or_unknown(error: Error, prior: Option<UnknownCause>) -> Error {
    match prior {
        Some(cause) => Error::OutcomeUnknown(cause),
        None => error,
    }
}

pub fn preserve_unknown(error: Error, prior: Option<UnknownCause>) -> (r: Error)
    ensures
        r == or_unknown(error, prior),
{
    match prior {
        Some(cause) => Error::OutcomeUnknown(cause),
        None => error,
    }
}

/// The error of a request that was given up before it was sent.
pub open spec fn given_up(cause: UnknownCause) -> Error {
    match cause {
        UnknownCause::Cancelled => Error::Cancelled,
        UnknownCause::Timeout => Error::Timeout,
        UnknownCause::Transport => Error::NotConnected,
    }
}

fn give_up(cause: UnknownCause) -> (r: Error)
    ensures
        r == given_up(cause),
{
    match cause {
        UnknownCause::Cancelled => Error::Cancelled,
        UnknownCause::Timeout => Error::Timeout,
        UnknownCause::Transport => Error::NotConnected,
    }
}

/// What comes of a request that was cancelled for a cause, given how it ended: a reply that came
/// all the same counts.
pub fn classify_cancel(
    result: Result<Option<Message>, SessionError>,
    cause: UnknownCause,
    mutation: bool,
) -> (r: Result<Message, Error>)
    ensures
        match result {
            Ok(Some(reply)) => r == Ok::<Message, Error>(reply),
            Ok(None) => r == Err::<Message, Error>(Error::MalformedReply),
            Err(error) => r == Err::<Message, Error>(
                if error == SessionError::Cancelled {
                    given_up(cause)
                } else if error == SessionError::OutcomeUnknown && mutation {
                    Error::OutcomeUnknown(cause)
                } else {
                    request_failure(error, mutation)
                },
            ),
        },
{
    match result {
        Ok(Some(reply)) => Ok(reply),
        Ok(None) => Err(Error::MalformedReply),
        Err(SessionError::Cancelled) => Err(give_up(cause)),
        Err(error) => {
            if error == SessionError::OutcomeUnknown && mutation {
                return Err(Error::OutcomeUnknown(cause));
            }
            Err(map_request_error(error, mutation))
        },
    }
}

/// What comes of a request that ended by itself.
pub fn classify_result(result: Result<Option<Message>, SessionError>, mutation: bool) -> (r: Result<
    Message,
    Error,
>)
    ensures
        r == match result {
            Ok(Some(reply)) => Ok::<Message, Error>(reply),
            Ok(None) => Err(Error::MalformedReply),
            Err(error) => Err(request_failure(error, mutation)),
        },
{
    match result {
        Ok(Some(reply)) => Ok(reply),
        Ok(None) => Err(Error::MalformedReply),
        Err(error) => Err(map_request_error(error, mutation)),
    }
}

/// The error of a request that was given up for a cause while it waited to be taken, and was then
/// refused.
pub fn classify_refusal(error: SessionError, cause: UnknownCause) -> (r: Error)
    ensures
        r == if error == SessionError::Cancelled {
            given_up(cause)
        } else {
            session_failure(error)
        },
{
    if error == SessionError::Cancelled {
        give_up(cause)
    } else {
        map_session_error(error)
    }
}

/// Whether an operation may go on that was perhaps cancelled and perhaps has run out of time.
pub fn check_options(canceled: bool, expired: bool) -> (r: Result<(), Error>)
    ensures
        r == if canceled {
            Err::<(), Error>(Error::Cancelled)
        } else if expired {
            Err(Error::Timeout)
        } else {
            Ok(())
        },
{
    if canceled {
        return Err(Error::Cancelled);
    }
    if expired {
        return Err(Error::Timeout);
    }
    Ok(())
}

// ---------------------------------------------------------------------------
// Operations
// ---------------------------------------------------------------------------

/// Whether it matters that an operation is done exactly once: changes, and notifications.
pub open spec fn outcome_sensitive(op: OperationView) -> bool
    decreases op,
{
    match op {
        OperationView::Notify { .. } => true,
        OperationView::NotifyAck { .. } => true,
        OperationView::WithFlags { operation, .. } => outcome_sensitive(*operation),
        _ => mutates(op),
    }
}

/// Whether an operation may be sent again when it is not known whether it was done.
pub open spec fn repeatable(op: OperationView) -> bool
    decreases op,
{
    match op {
        OperationView::Call { .. } => false,
        OperationView::Notify { .. } => false,
        OperationView::NotifyAck { .. } => false,
        OperationView::WithFlags { operation, .. } => repeatable(*operation),
        _ => true,
    }
}

fn is_outcome_sensitive(operation: &Operation) -> (r: bool)
    ensures
        r == outcome_sensitive(operation@),
    decreases operation,
{
    match operation {
        Operation::Notify { .. } => true,
        Operation::NotifyAck { .. } => true,
        Operation::WithFlags { operation, .. } => is_outcome_sensitive(operation),
        _ => operation.is_mutation(),
    }
}

/// Whether it matters of one of the operations that it is done exactly once.
pub fn contains_outcome_sensitive(operations: &[Operation]) -> (r: bool)
    ensures
        r == exists|i: int|
            0 <= i < operations@.len() && outcome_sensitive((#[trigger] operations@[i])@),
{
    let mut i: usize = 0;
    while i < operations.len()
        invariant
            i <= operations@.len(),
            forall|j: int| 0 <= j < i ==> !outcome_sensitive((#[trigger] operations@[j])@),
        decreases operations@.len() - i,
    {
        if is_outcome_sensitive(&operations[i]) {
            return true;
        }
        i = i + 1;
    }
    false
}

/// Whether one of the operations changes the object.
pub fn contains_durable_mutation(operations: &[Operation]) -> (r: bool)
    ensures
        r == any_mutation(operations_view(operations@)),
{
    contains_mutation(operations)
}

pub fn allows_unknown_retry(operation: &Operation) -> (r: bool)
    ensures
        r == repeatable(operation@),
    decreases operation,
{
    match operation {
        Operation::Call { .. } => false,
        Operation::Notify { .. } => false,
        Operation::NotifyAck { .. } => false,
        Operation::WithFlags { operation, .. } => allows_unknown_retry(operation),
        _ => true,
    }
}

/// Every change that the library makes itself may be sent again, and what may not is either
/// harmless or a call or a notification.
pub proof fn law_changes_are_repeatable(mutation: Mutation<'_>)
    ensures
        repeatable(mutation.operation()),
        outcome_sensitive(mutation.operation()),
{
}

/// Whether a read may be asked for: its end is a number, and the data and the front of the reply
/// are within the limit.
pub open spec fn readable_length(object: nat, offset: u64, length: u64, max_bytes: u32) -> bool {
    &&& offset + length <= u64::MAX
    &&& READ_REPLY_FRONT_BYTES + object + length <= max_bytes
}

pub fn check_read(object: &[u8], offset: u64, length: u64, max_bytes: u32) -> (r: Result<(), Error>)
    ensures
        r == if readable_length(object@.len(), offset, length, max_bytes) {
            Ok::<(), Error>(())
        } else {
            Err(Error::LimitExceeded)
        },
{
    let size: usize = object.len();
    let minimum: u128 = READ_REPLY_FRONT_BYTES as u128 + size as u128;
    if offset.checked_add(length).is_none() || minimum > max_bytes as u128 || length as u128
        > max_bytes as u128 - minimum {
        return Err(Error::LimitExceeded);
    }
    Ok(())
}

/// How many bytes go with operations.
pub open spec fn data_size(ops: Seq<OperationView>) -> nat
    decreases ops.len(),
{
    if ops.len() == 0 {
        0
    } else {
        data_size(ops.drop_last()) + operation_data(ops.last()).len()
    }
}

proof fn lemma_data_size(ops: Seq<OperationView>, n: int)
    requires
        0 <= n <= ops.len(),
    ensures
        data_size(ops.take(n)) <= data_size(ops),
    decreases ops.len() - n,
{
    if n < ops.len() {
        assert(ops.take(n + 1).drop_last() =~= ops.take(n));
        lemma_data_size(ops, n + 1);
    } else {
        assert(ops.take(n) =~= ops);
    }
}

/// Whether operations may be sent as a change: to the object itself and not to a snapshot of it, as
/// many as allowed, not harmless all of them, and with data within the limit.
pub open spec fn mutable_request(
    snapshot: u64,
    ops: Seq<OperationView>,
    max_operations: u32,
    max_bytes: u32,
) -> bool {
    &&& snapshot == NO_SNAP
    &&& 0 < ops.len() <= max_operations
    &&& exists|i: int| 0 <= i < ops.len() && outcome_sensitive(#[trigger] ops[i])
    &&& data_size(ops) <= max_bytes
}

/// How many bytes go with operations that may be sent as a change.
pub fn check_mutation(
    snapshot: u64,
    operations: &[Operation],
    max_operations: u32,
    max_bytes: u32,
) -> (r: Result<u64, Error>)
    ensures
        r == if mutable_request(snapshot, operations_view(operations@), max_operations, max_bytes) {
            Ok::<u64, Error>(data_size(operations_view(operations@)) as u64)
        } else {
            Err(Error::LimitExceeded)
        },
{
    let ghost ops = operations_view(operations@);
    if snapshot != NO_SNAP || operations.len() == 0 || operations.len() > max_operations as usize {
        return Err(Error::LimitExceeded);
    }
    let sensitive: bool = contains_outcome_sensitive(operations);
    proof {
        if sensitive {
            let i = choose|i: int|
                0 <= i < operations@.len() && outcome_sensitive((#[trigger] operations@[i])@);
            assert(outcome_sensitive(ops[i]));
        } else {
            assert forall|i: int| 0 <= i < ops.len() implies !outcome_sensitive(
                #[trigger] ops[i],
            ) by {
                assert(ops[i] == operations@[i]@);
            }
        }
    }
    if !sensitive {
        return Err(Error::LimitExceeded);
    }
    let mut retained: u64 = 0;
    let mut i: usize = 0;
    assert(ops.take(0) =~= Seq::empty());
    while i < operations.len()
        invariant
            i <= operations@.len(),
            ops == operations_view(operations@),
            retained == data_size(ops.take(i as int)),
            retained <= max_bytes,
        decreases operations@.len() - i,
    {
        proof {
            assert(ops.take(i + 1).drop_last() =~= ops.take(i as int));
            assert(ops.take(i + 1).last() == operations@[i as int]@);
            lemma_data_size(ops, i + 1);
        }
        match operations[i].data_len() {
            None => {
                return Err(Error::LimitExceeded);
            },
            Some(length) => {
                if length as u64 > max_bytes as u64 - retained {
                    return Err(Error::LimitExceeded);
                }
                retained = retained + length as u64;
            },
        }
        i = i + 1;
    }
    assert(ops.take(i as int) =~= ops);
    Ok(retained)
}

// ---------------------------------------------------------------------------
// Replies
// ---------------------------------------------------------------------------

/// Whether a reply is to the request that was sent for an object to a placement group in an
/// attempt. A reply need not say which attempt it is to.
pub open spec fn answers(reply: ReplyView, object: Seq<u8>, pg: PG, attempt: int) -> bool {
    &&& reply.object == object
    &&& reply.pg == pg
    &&& reply.retry < 0 || reply.retry == attempt
}

pub fn validate_target(reply: &Reply, object: &[u8], pg: PG, attempt: usize) -> (r: Result<
    (),
    Error,
>)
    ensures
        r is Ok <==> answers(reply@, object@, pg, attempt as int),
        r matches Err(error) ==> error == if reply.object@ == object@ && reply.pg == pg && attempt
            > i32::MAX {
            Error::LimitExceeded
        } else {
            Error::MalformedReply
        },
{
    if !same_bytes(reply.object.as_slice(), object) || reply.pg != pg {
        return Err(Error::MalformedReply);
    }
    if reply.retry >= 0 {
        if attempt as u64 > i32::MAX as u64 {
            return Err(Error::LimitExceeded);
        }
        if reply.retry as u64 != attempt as u64 {
            return Err(Error::MalformedReply);
        }
    }
    Ok(())
}

/// Whether the results of a reply are those of operations with these codes, one for each. A read
/// yields no more than it asked for.
pub open spec fn results_match(
    results: Seq<OperationResultView>,
    ops: Seq<OperationView>,
    codes: Seq<u16>,
) -> bool {
    &&& results.len() == ops.len()
    &&& forall|i: int|
        0 <= i < ops.len() ==> (#[trigger] results[i]).operation == codes[i] && (
        ops[i] matches OperationView::Read { length, .. } ==> results[i].data.len() <= length)
}

/// The codes of operations.
pub open spec fn operation_codes(ops: Seq<OperationView>) -> Seq<u16> {
    Seq::new(ops.len(), |i: int| operation_code(ops[i]))
}

/// Whether a reply has the results of operations with these codes.
pub fn validate_results(reply: &Reply, operations: &[Operation], codes: &[u16]) -> (r: Result<
    (),
    Error,
>)
    requires
        codes@.len() == operations@.len(),
    ensures
        r == if results_match(reply@.operations, operations_view(operations@), codes@) {
            Ok::<(), Error>(())
        } else {
            Err(Error::MalformedReply)
        },
{
    let ghost results = reply@.operations;
    let ghost ops = operations_view(operations@);
    if reply.operations.len() != operations.len() {
        return Err(Error::MalformedReply);
    }
    let mut i: usize = 0;
    while i < operations.len()
        invariant
            i <= operations@.len(),
            operations@.len() == reply.operations@.len(),
            codes@.len() == operations@.len(),
            results == reply@.operations,
            ops == operations_view(operations@),
            forall|j: int|
                0 <= j < i ==> (#[trigger] results[j]).operation == codes@[j] && (
                ops[j] matches OperationView::Read { length, .. } ==> results[j].data.len()
                    <= length),
        decreases operations@.len() - i,
    {
        assert(results[i as int] == reply.operations@[i as int]@);
        assert(ops[i as int] == operations@[i as int]@);
        if reply.operations[i].operation != codes[i] {
            return Err(Error::MalformedReply);
        }
        if let Operation::Read { length, .. } = &operations[i] {
            if reply.operations[i].data.len() as u64 > *length {
                return Err(Error::MalformedReply);
            }
        }
        i = i + 1;
    }
    Ok(())
}

/// The codes of operations.
pub fn codes_of(operations: &[Operation]) -> (r: Vec<u16>)
    requires
        all_described(operations_view(operations@)),
    ensures
        r@ == operation_codes(operations_view(operations@)),
{
    let ghost ops = operations_view(operations@);
    let mut codes: Vec<u16> = Vec::new();
    let mut i: usize = 0;
    while i < operations.len()
        invariant
            i <= operations@.len(),
            ops == operations_view(operations@),
            all_described(ops),
            codes@ =~= operation_codes(ops).take(i as int),
        decreases operations@.len() - i,
    {
        assert(ops[i as int] == operations@[i as int]@);
        codes.push(operations[i].code());
        i = i + 1;
    }
    assert(codes@ =~= operation_codes(ops));
    codes
}

/// The codes of operations, if all of them have a descriptor.
pub fn described_codes(operations: &[Operation]) -> (r: Result<Vec<u16>, Error>)
    ensures
        match r {
            Ok(codes) => all_described(operations_view(operations@)) && codes@ == operation_codes(
                operations_view(operations@),
            ),
            Err(error) => !all_described(operations_view(operations@)) && error
                == Error::Unsupported,
        },
{
    let ghost ops = operations_view(operations@);
    let mut i: usize = 0;
    while i < operations.len()
        invariant
            i <= operations@.len(),
            ops == operations_view(operations@),
            forall|j: int| 0 <= j < i ==> described(#[trigger] ops[j]),
        decreases operations@.len() - i,
    {
        assert(ops[i as int] == operations@[i as int]@);
        if !operations[i].is_described() {
            return Err(Error::Unsupported);
        }
        i = i + 1;
    }
    Ok(codes_of(operations))
}

/// Whether a reply has the results of operations.
pub fn validate_operations(reply: &Reply, operations: &[Operation]) -> (r: Result<(), Error>)
    requires
        all_described(operations_view(operations@)),
    ensures
        r == if results_match(
            reply@.operations,
            operations_view(operations@),
            operation_codes(operations_view(operations@)),
        ) {
            Ok::<(), Error>(())
        } else {
            Err(Error::MalformedReply)
        },
{
    let codes = codes_of(operations);
    validate_results(reply, operations, codes.as_slice())
}

/// Whether a reply to a change says that it succeeded without saying that it is on disk.
pub open spec fn unsettled(reply: ReplyView) -> bool {
    reply.result == 0 && reply.flags & (FLAG_ON_DISK as i64) == 0
}

pub fn validate_durable_reply(reply: &Reply) -> (r: Result<(), Error>)
    ensures
        r == if unsettled(reply@) {
            Err::<(), Error>(Error::OutcomeUnknown(UnknownCause::Transport))
        } else {
            Ok(())
        },
{
    if reply.result == 0 && reply.flags & (FLAG_ON_DISK as i64) == 0 {
        return Err(Error::OutcomeUnknown(UnknownCause::Transport));
    }
    Ok(())
}

// ---------------------------------------------------------------------------
// Sessions
// ---------------------------------------------------------------------------

/// The first address that can be connected to: an IPv4 one with a port.
pub open spec fn routable(addresses: Seq<AddressView>) -> Option<int>
    decreases addresses.len(),
{
    if addresses.len() == 0 {
        None
    } else {
        match routable(addresses.drop_last()) {
            Some(i) => Some(i),
            None => match endpoint_of(addresses.last()) {
                Some(endpoint) => if endpoint.port != 0 {
                    Some(addresses.len() - 1)
                } else {
                    None
                },
                None => None,
            },
        }
    }
}

proof fn lemma_routable(addresses: Seq<AddressView>, n: int)
    requires
        0 <= n <= addresses.len(),
        routable(addresses.take(n)) is Some,
    ensures
        routable(addresses) == routable(addresses.take(n)),
    decreases addresses.len() - n,
{
    if n < addresses.len() {
        assert(addresses.take(n + 1).drop_last() =~= addresses.take(n));
        lemma_routable(addresses, n + 1);
    } else {
        assert(addresses.take(n) =~= addresses);
    }
}

/// Where the first address stands that can be connected to, and its endpoint.
pub fn route_address(addresses: &EntityAddrVec) -> (r: Result<(usize, Endpoint4), Error>)
    ensures
        match r {
            Ok((index, endpoint)) => index < addresses@.len() && routable(addresses@) == Some(
                index as int,
            ) && endpoint_of(addresses@[index as int]) == Some(endpoint),
            Err(error) => routable(addresses@) is None && error == Error::NoPrimary,
        },
{
    let ghost all = addresses@;
    let mut i: usize = 0;
    assert(all.take(0) =~= Seq::empty());
    while i < addresses.0.len()
        invariant
            i <= addresses.0@.len(),
            all == addresses@,
            routable(all.take(i as int)) is None,
        decreases addresses.0@.len() - i,
    {
        proof {
            assert(all.take(i + 1).drop_last() =~= all.take(i as int));
            assert(all.take(i + 1).last() == addresses.0@[i as int]@);
        }
        if let Some(endpoint) = addresses.0[i].endpoint() {
            if endpoint.port != 0 {
                proof {
                    lemma_routable(all, i + 1);
                }
                return Ok((i, endpoint));
            }
        }
        i = i + 1;
    }
    assert(all.take(i as int) =~= all);
    Err(Error::NoPrimary)
}

/// The next transaction after one, if there is one.
pub fn take_transaction_id(next: &mut u64) -> (r: Result<u64, Error>)
    ensures
        match r {
            Ok(id) => id == *old(next) && *final(next) == *old(next) + 1,
            Err(error) => *old(next) == u64::MAX && *final(next) == *old(next) && error
                == Error::LimitExceeded,
        },
{
    if *next == u64::MAX {
        return Err(Error::LimitExceeded);
    }
    let id: u64 = *next;
    *next = id + 1;
    Ok(id)
}

/// The incarnation of the client: the one that it has, else a random one, which is positive and
/// odd.
pub fn client_incarnation(current: i32) -> (r: Result<i32, Error>)
    ensures
        current != 0 ==> r == Ok::<i32, Error>(current),
        current == 0 ==> match r {
            Ok(incarnation) => incarnation > 0 && incarnation % 2 == 1,
            Err(error) => error == Error::NotConnected,
        },
{
    if current != 0 {
        return Ok(current);
    }
    match random_incarnation() {
        Some(incarnation) => Ok(incarnation),
        None => Err(Error::NotConnected),
    }
}

/// A random number that is not zero, for a cookie.
pub fn random_cookie() -> (r: Result<u64, Error>)
    ensures
        match r {
            Ok(cookie) => cookie != 0,
            Err(error) => error == Error::NotConnected,
        },
{
    match random_nonzero() {
        Some(cookie) => Ok(cookie),
        None => Err(Error::NotConnected),
    }
}

// ---------------------------------------------------------------------------
// Views
// ---------------------------------------------------------------------------

/// What stands for a value of this type has its fields.
pub proof fn law_target_has_its_fields(x: Target)
    ensures
        x@.pool_id == x.pool_id,
        x@.object == x.object@,
        x@.locator == x.locator@,
        x@.namespace == x.namespace@,
        x@.snapshot == x.snapshot,
        x@.snapshot_sequence == x.snapshot_sequence,
        x@.write_snapshots == x.write_snapshots@,
{
}

/// What stands for a value of this type has its fields.
pub proof fn law_read_result_has_its_fields(x: ReadResult)
    ensures
        x@.data == x.data@,
        x@.version == x.version,
{
}

/// What stands for a value of this type has its fields.
pub proof fn law_command_result_has_its_fields(x: CommandResult)
    ensures
        x@.result == x.result,
        x@.status == x.status@,
        x@.output == x.output@,
{
}

/// What stands for a value of this type has its fields.
pub proof fn law_compound_result_has_its_fields(x: CompoundResult)
    ensures
        x@.operations == (results_view(x.operations@)),
        x@.version == x.version,
{
}

} // verus!
