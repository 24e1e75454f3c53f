//! Requests to daemons and their replies.

use super::backoff::{encode_spg, spg_bytes};
use crate::maps::PG;
use crate::msgr::message::{zero_header, Message, MessageHeader, MessageLengths, MessageView};
use crate::wire::{
    concatenated, finished, get_bool, get_bytes, get_i32, get_i64, get_many, get_raw, get_u16,
    get_u32, get_u64, get_u8, get_versioned, le16, le32, le64, limited_input, prefixed, unsigned32,
    unsigned64, versioned, zeros, Decoder, Encoder, Input, WireError,
};
use vstd::prelude::*;
use vstd::slice::{slice_subrange, slice_to_vec};

verus! {

broadcast use crate::wire::group_integers;

pub const MESSAGE_OSD_OP: u16 = 42;

pub const MESSAGE_OSD_OP_REPLY: u16 = 43;

pub const OP_READ: u16 = 0x1201;

pub const OP_STAT: u16 = 0x1202;

pub const OP_WRITE: u16 = 0x2201;

pub const OP_WRITE_FULL: u16 = 0x2202;

pub const OP_TRUNCATE: u16 = 0x2203;

pub const OP_ZERO: u16 = 0x2204;

pub const OP_DELETE: u16 = 0x2205;

pub const OP_APPEND: u16 = 0x2206;

pub const OP_CREATE: u16 = 0x220d;

pub const OP_FLAG_EXCLUSIVE: u32 = 0x0001;

/// The flag of an operation whose failure does not fail the request.
pub const OP_FLAG_FAIL_OK: u32 = 0x0002;

pub const FLAG_ACK: u32 = 0x0001;

pub const FLAG_ON_DISK: u32 = 0x0004;

pub const FLAG_RETRY: u32 = 0x0008;

pub const FLAG_READ: u32 = 0x0010;

pub const FLAG_WRITE: u32 = 0x0020;

pub const FLAG_PG_OP: u32 = 0x0400;

pub const FLAG_IGNORE_CACHE: u32 = 0x8000;

pub const FLAG_IGNORE_OVERLAY: u32 = 0x2_0000;

pub const FLAG_REDIRECTED: u32 = 0x20_0000;

pub const FLAG_RETURN_VECTOR: u32 = 0x400_0000;

/// No snapshot: the object as it is.
pub const NO_SNAP: u64 = 0xffff_ffff_ffff_fffe;

/// The size of the descriptor of an operation in a reply.
pub const OPERATION_DESCRIPTOR_SIZE: usize = 38;

/// How much of a message is accepted.
#[derive(Clone, Copy, Debug, PartialEq, Eq, Structural)]
pub struct Limits {
    pub max_bytes: u32,
    pub max_operations: u32,
}

/// Something to do to an object.
#[derive(Debug, PartialEq, Eq)]
pub enum Operation {
    Read { offset: u64, length: u64 },
    Stat,
    Create { exclusive: bool },
    Write { offset: u64, data: Vec<u8> },
    WriteFull(Vec<u8>),
    Append(Vec<u8>),
    Truncate { size: u64 },
    Zero { offset: u64, length: u64 },
    Remove,
    AssertVersion(u64),
    CompareExtent { offset: u64, data: Vec<u8> },
    GetXattr(Vec<u8>),
    SetXattr { name: Vec<u8>, value: Vec<u8> },
    RemoveXattr(Vec<u8>),
    OmapGetHeader,
    OmapGetValues(Vec<u8>),
    OmapSetValues(Vec<u8>),
    OmapRemoveKeys(Vec<u8>),
    OmapRemoveRange(Vec<u8>),
    OmapClear,
    OmapSetHeader(Vec<u8>),
    OmapCompare(Vec<u8>),
    Call { class_length: u8, method_length: u8, input_length: u32, data: Vec<u8>, mutation: bool },
    Notify { cookie: u64, data: Vec<u8> },
    NotifyAck { cookie: u64, data: Vec<u8> },
    PGNList { cursor: Vec<u8>, cursor_hash: u32, count: u64, start_epoch: u32 },
    ScrubList(Vec<u8>),
    WithFlags { operation: Box<Operation>, flags: u32 },
}

/// The contents of an operation.
pub enum OperationView {
    Read { offset: u64, length: u64 },
    Stat,
    Create { exclusive: bool },
    Write { offset: u64, data: Seq<u8> },
    WriteFull(Seq<u8>),
    Append(Seq<u8>),
    Truncate { size: u64 },
    Zero { offset: u64, length: u64 },
    Remove,
    AssertVersion(u64),
    CompareExtent { offset: u64, data: Seq<u8> },
    GetXattr(Seq<u8>),
    SetXattr { name: Seq<u8>, value: Seq<u8> },
    RemoveXattr(Seq<u8>),
    OmapGetHeader,
    OmapGetValues(Seq<u8>),
    OmapSetValues(Seq<u8>),
    OmapRemoveKeys(Seq<u8>),
    OmapRemoveRange(Seq<u8>),
    OmapClear,
    OmapSetHeader(Seq<u8>),
    OmapCompare(Seq<u8>),
    Call { class_length: u8, method_length: u8, input_length: u32, data: Seq<u8>, mutation: bool },
    Notify { cookie: u64, data: Seq<u8> },
    NotifyAck { cookie: u64, data: Seq<u8> },
    PGNList { cursor: Seq<u8>, cursor_hash: u32, count: u64, start_epoch: u32 },
    ScrubList(Seq<u8>),
    WithFlags { operation: Box<OperationView>, flags: u32 },
}

pub open spec fn operation_view(operation: Operation) -> OperationView
    decreases operation,
{
    match operation {
        Operation::Read { offset, length } => OperationView::Read { offset, length },
        Operation::Stat => OperationView::Stat,
        Operation::Create { exclusive } => OperationView::Create { exclusive },
        Operation::Write { offset, data } => OperationView::Write { offset, data: data@ },
        Operation::WriteFull(data) => OperationView::WriteFull(data@),
        Operation::Append(data) => OperationView::Append(data@),
        Operation::Truncate { size } => OperationView::Truncate { size },
        Operation::Zero { offset, length } => OperationView::Zero { offset, length },
        Operation::Remove => OperationView::Remove,
        Operation::AssertVersion(version) => OperationView::AssertVersion(version),
        Operation::CompareExtent { offset, data } => OperationView::CompareExtent {
            offset,
            data: data@,
        },
        Operation::GetXattr(name) => OperationView::GetXattr(name@),
        Operation::SetXattr { name, value } => OperationView::SetXattr {
            name: name@,
            value: value@,
        },
        Operation::RemoveXattr(name) => OperationView::RemoveXattr(name@),
        Operation::OmapGetHeader => OperationView::OmapGetHeader,
        Operation::OmapGetValues(payload) => OperationView::OmapGetValues(payload@),
        Operation::OmapSetValues(payload) => OperationView::OmapSetValues(payload@),
        Operation::OmapRemoveKeys(payload) => OperationView::OmapRemoveKeys(payload@),
        Operation::OmapRemoveRange(payload) => OperationView::OmapRemoveRange(payload@),
        Operation::OmapClear => OperationView::OmapClear,
        Operation::OmapSetHeader(value) => OperationView::OmapSetHeader(value@),
        Operation::OmapCompare(payload) => OperationView::OmapCompare(payload@),
        Operation::Call { class_length, method_length, input_length, data, mutation } => {
            OperationView::Call {
                class_length,
                method_length,
                input_length,
                data: data@,
                mutation,
            }
        },
        Operation::Notify { cookie, data } => OperationView::Notify { cookie, data: data@ },
        Operation::NotifyAck { cookie, data } => OperationView::NotifyAck { cookie, data: data@ },
        Operation::PGNList { cursor, cursor_hash, count, start_epoch } => {
            OperationView::PGNList { cursor: cursor@, cursor_hash, count, start_epoch }
        },
        Operation::ScrubList(payload) => OperationView::ScrubList(payload@),
        Operation::WithFlags { operation, flags } => OperationView::WithFlags {
            operation: Box::new(operation_view(*operation)),
            flags,
        },
    }
}

impl View for Operation {
    type V = OperationView;

    open spec fn view(&self) -> OperationView {
        operation_view(*self)
    }
}

impl Operation {
    fn duplicate(&self) -> (r: Self)
        ensures
            r@ == self@,
        decreases self,
    {
        match self {
            Operation::Read { offset, length } => Operation::Read {
                offset: *offset,
                length: *length,
            },
            Operation::Stat => Operation::Stat,
            Operation::Create { exclusive } => Operation::Create { exclusive: *exclusive },
            Operation::Write { offset, data } => Operation::Write {
                offset: *offset,
                data: slice_to_vec(data.as_slice()),
            },
            Operation::WriteFull(data) => Operation::WriteFull(slice_to_vec(data.as_slice())),
            Operation::Append(data) => Operation::Append(slice_to_vec(data.as_slice())),
            Operation::Truncate { size } => Operation::Truncate { size: *size },
            Operation::Zero { offset, length } => Operation::Zero {
                offset: *offset,
                length: *length,
            },
            Operation::Remove => Operation::Remove,
            Operation::AssertVersion(value) => Operation::AssertVersion(*value),
            Operation::CompareExtent { offset, data } => Operation::CompareExtent {
                offset: *offset,
                data: slice_to_vec(data.as_slice()),
            },
            Operation::GetXattr(data) => Operation::GetXattr(slice_to_vec(data.as_slice())),
            Operation::SetXattr { name, value } => Operation::SetXattr {
                name: slice_to_vec(name.as_slice()),
                value: slice_to_vec(value.as_slice()),
            },
            Operation::RemoveXattr(data) => Operation::RemoveXattr(slice_to_vec(data.as_slice())),
            Operation::OmapGetHeader => Operation::OmapGetHeader,
            Operation::OmapGetValues(data) => Operation::OmapGetValues(
                slice_to_vec(data.as_slice()),
            ),
            Operation::OmapSetValues(data) => Operation::OmapSetValues(
                slice_to_vec(data.as_slice()),
            ),
            Operation::OmapRemoveKeys(data) => Operation::OmapRemoveKeys(
                slice_to_vec(data.as_slice()),
            ),
            Operation::OmapRemoveRange(data) => Operation::OmapRemoveRange(
                slice_to_vec(data.as_slice()),
            ),
            Operation::OmapClear => Operation::OmapClear,
            Operation::OmapSetHeader(data) => Operation::OmapSetHeader(
                slice_to_vec(data.as_slice()),
            ),
            Operation::OmapCompare(data) => Operation::OmapCompare(slice_to_vec(data.as_slice())),
            Operation::Call {
                class_length,
                method_length,
                input_length,
                data,
                mutation,
            } => Operation::Call {
                class_length: *class_length,
                method_length: *method_length,
                input_length: *input_length,
                data: slice_to_vec(data.as_slice()),
                mutation: *mutation,
            },
            Operation::Notify { cookie, data } => Operation::Notify {
                cookie: *cookie,
                data: slice_to_vec(data.as_slice()),
            },
            Operation::NotifyAck { cookie, data } => Operation::NotifyAck {
                cookie: *cookie,
                data: slice_to_vec(data.as_slice()),
            },
            Operation::PGNList { cursor, cursor_hash, count, start_epoch } => Operation::PGNList {
                cursor: slice_to_vec(cursor.as_slice()),
                cursor_hash: *cursor_hash,
                count: *count,
                start_epoch: *start_epoch,
            },
            Operation::ScrubList(data) => Operation::ScrubList(slice_to_vec(data.as_slice())),
            Operation::WithFlags { operation, flags } => Operation::WithFlags {
                operation: Box::new(operation.duplicate()),
                flags: *flags,
            },
        }
    }
}

impl Clone for Operation {
    fn clone(&self) -> (r: Self)
        ensures
            r@ == self@,
    {
        self.duplicate()
    }
}

pub open spec fn operations_view(operations: Seq<Operation>) -> Seq<OperationView> {
    Seq::new(operations.len(), |i: int| operations[i]@)
}

/// Whether an operation has a descriptor of its own in a request: its code, and an offset and a
/// length or nothing.
pub open spec fn described(op: OperationView) -> bool {
    match op {
        OperationView::Read { .. } => true,
        OperationView::Stat => true,
        OperationView::Create { .. } => true,
        OperationView::Write { .. } => true,
        OperationView::WriteFull(_) => true,
        OperationView::Append(_) => true,
        OperationView::Truncate { .. } => true,
        OperationView::Zero { .. } => true,
        OperationView::Remove => true,
        _ => false,
    }
}

/// The code of an operation that has a descriptor.
pub open spec fn operation_code(op: OperationView) -> u16 {
    match op {
        OperationView::Read { .. } => OP_READ,
        OperationView::Stat => OP_STAT,
        OperationView::Create { .. } => OP_CREATE,
        OperationView::Write { .. } => OP_WRITE,
        OperationView::WriteFull(_) => OP_WRITE_FULL,
        OperationView::Append(_) => OP_APPEND,
        OperationView::Truncate { .. } => OP_TRUNCATE,
        OperationView::Zero { .. } => OP_ZERO,
        _ => OP_DELETE,
    }
}

/// Whether an operation changes the object. Comparisons and notifications do not, and a call does
/// where it says so.
pub open spec fn mutates(op: OperationView) -> bool
    decreases op,
{
    match op {
        OperationView::Create { .. } => true,
        OperationView::Write { .. } => true,
        OperationView::WriteFull(_) => true,
        OperationView::Append(_) => true,
        OperationView::Truncate { .. } => true,
        OperationView::Zero { .. } => true,
        OperationView::Remove => true,
        OperationView::SetXattr { .. } => true,
        OperationView::RemoveXattr(_) => true,
        OperationView::OmapSetValues(_) => true,
        OperationView::OmapRemoveKeys(_) => true,
        OperationView::OmapRemoveRange(_) => true,
        OperationView::OmapClear => true,
        OperationView::OmapSetHeader(_) => true,
        OperationView::Call { mutation, .. } => mutation,
        OperationView::WithFlags { operation, .. } => mutates(*operation),
        _ => false,
    }
}

/// The bytes that go with an operation.
pub open spec fn operation_data(op: OperationView) -> Seq<u8>
    decreases op,
{
    match op {
        OperationView::Write { data, .. } => data,
        OperationView::WriteFull(data) => data,
        OperationView::Append(data) => data,
        OperationView::CompareExtent { data, .. } => data,
        OperationView::GetXattr(name) => name,
        OperationView::SetXattr { name, value } => name + value,
        OperationView::RemoveXattr(name) => name,
        OperationView::OmapGetValues(payload) => payload,
        OperationView::OmapSetValues(payload) => payload,
        OperationView::OmapRemoveKeys(payload) => payload,
        OperationView::OmapRemoveRange(payload) => payload,
        OperationView::OmapSetHeader(value) => value,
        OperationView::OmapCompare(payload) => payload,
        OperationView::Call { data, .. } => data,
        OperationView::Notify { data, .. } => data,
        OperationView::NotifyAck { data, .. } => data,
        OperationView::PGNList { cursor, .. } => cursor,
        OperationView::ScrubList(payload) => payload,
        OperationView::WithFlags { operation, .. } => operation_data(*operation),
        _ => Seq::empty(),
    }
}

/// The flags that an operation was given.
pub open spec fn operation_flags(op: OperationView) -> u32 {
    match op {
        OperationView::WithFlags { flags, .. } => flags,
        _ => 0,
    }
}

/// The hash that decides where a request goes, where it is not that of its object.
pub open spec fn operation_route(op: OperationView) -> Option<u32>
    decreases op,
{
    match op {
        OperationView::PGNList { cursor_hash, .. } => Some(cursor_hash),
        OperationView::WithFlags { operation, .. } => operation_route(*operation),
        _ => None,
    }
}

impl Operation {
    pub fn code(&self) -> (r: u16)
        requires
            described(self@),
        ensures
            r == operation_code(self@),
    {
        match self {
            Operation::Read { .. } => OP_READ,
            Operation::Stat => OP_STAT,
            Operation::Create { .. } => OP_CREATE,
            Operation::Write { .. } => OP_WRITE,
            Operation::WriteFull(_) => OP_WRITE_FULL,
            Operation::Append(_) => OP_APPEND,
            Operation::Truncate { .. } => OP_TRUNCATE,
            Operation::Zero { .. } => OP_ZERO,
            _ => OP_DELETE,
        }
    }

    pub fn is_described(&self) -> (r: bool)
        ensures
            r == described(self@),
    {
        matches!(
            self,
            Operation::Read { .. }
                | Operation::Stat
                | Operation::Create { .. }
                | Operation::Write { .. }
                | Operation::WriteFull(_)
                | Operation::Append(_)
                | Operation::Truncate { .. }
                | Operation::Zero { .. }
                | Operation::Remove
        )
    }

    pub fn is_mutation(&self) -> (r: bool)
        ensures
            r == mutates(self@),
        decreases self,
    {
        match self {
            Operation::Create { .. } => true,
            Operation::Write { .. } => true,
            Operation::WriteFull(_) => true,
            Operation::Append(_) => true,
            Operation::Truncate { .. } => true,
            Operation::Zero { .. } => true,
            Operation::Remove => true,
            Operation::SetXattr { .. } => true,
            Operation::RemoveXattr(_) => true,
            Operation::OmapSetValues(_) => true,
            Operation::OmapRemoveKeys(_) => true,
            Operation::OmapRemoveRange(_) => true,
            Operation::OmapClear => true,
            Operation::OmapSetHeader(_) => true,
            Operation::Call { mutation, .. } => *mutation,
            Operation::WithFlags { operation, .. } => operation.is_mutation(),
            _ => false,
        }
    }

    /// How many bytes go with the operation, if they can be counted.
    pub fn data_len(&self) -> (r: Option<usize>)
        ensures
            r matches Some(length) ==> length == operation_data(self@).len(),
            r is None ==> operation_data(self@).len() > usize::MAX,
        decreases self,
    {
        match self {
            Operation::Write { data, .. } => Some(data.len()),
            Operation::WriteFull(data) => Some(data.len()),
            Operation::Append(data) => Some(data.len()),
            Operation::CompareExtent { data, .. } => Some(data.len()),
            Operation::GetXattr(name) => Some(name.len()),
            Operation::SetXattr { name, value } => name.len().checked_add(value.len()),
            Operation::RemoveXattr(name) => Some(name.len()),
            Operation::OmapGetValues(payload) => Some(payload.len()),
            Operation::OmapSetValues(payload) => Some(payload.len()),
            Operation::OmapRemoveKeys(payload) => Some(payload.len()),
            Operation::OmapRemoveRange(payload) => Some(payload.len()),
            Operation::OmapSetHeader(value) => Some(value.len()),
            Operation::OmapCompare(payload) => Some(payload.len()),
            Operation::Call { data, .. } => Some(data.len()),
            Operation::Notify { data, .. } => Some(data.len()),
            Operation::NotifyAck { data, .. } => Some(data.len()),
            Operation::PGNList { cursor, .. } => Some(cursor.len()),
            Operation::ScrubList(payload) => Some(payload.len()),
            Operation::WithFlags { operation, .. } => operation.data_len(),
            _ => Some(0),
        }
    }

    /// The bytes that go with an operation that has a descriptor.
    pub fn data(&self) -> (r: Option<&Vec<u8>>)
        requires
            described(self@),
        ensures
            match r {
                Some(data) => operation_data(self@) == data@,
                None => operation_data(self@).len() == 0,
            },
    {
        match self {
            Operation::Write { data, .. } => Some(data),
            Operation::WriteFull(data) => Some(data),
            Operation::Append(data) => Some(data),
            _ => None,
        }
    }

    pub fn flags(&self) -> (r: u32)
        ensures
            r == operation_flags(self@),
    {
        match self {
            Operation::WithFlags { flags, .. } => *flags,
            _ => 0,
        }
    }

    pub fn route_hash(&self) -> (r: Option<u32>)
        ensures
            r == operation_route(self@),
        decreases self,
    {
        match self {
            Operation::PGNList { cursor_hash, .. } => Some(*cursor_hash),
            Operation::WithFlags { operation, .. } => operation.route_hash(),
            _ => None,
        }
    }
}

// ---------------------------------------------------------------------------
// Requests
// ---------------------------------------------------------------------------

/// Operations on one object.
#[derive(Clone, Debug, PartialEq, Eq)]
pub struct Request<'a> {
    pub map_epoch: u32,
    pub pg: PG,
    pub shard: i8,
    pub sharded: bool,
    pub object_hash: u32,
    pub pool_id: i64,
    pub object: &'a [u8],
    pub locator: &'a [u8],
    pub namespace: &'a [u8],
    pub snapshot: u64,
    pub snapshot_sequence: u64,
    pub write_snapshots: &'a [u64],
    pub transaction_id: u64,
    pub client_global_id: u64,
    pub client_incarnation: i32,
    pub retry: i32,
    pub flags: u32,
    pub features: u64,
    pub operations: &'a [Operation],
}

/// An error of a message of a daemon.
#[derive(Clone, Copy, Debug, PartialEq, Eq, Structural)]
pub enum Error {
    Wire(WireError),
    Malformed,
    UnsupportedVersion,
}

pub open spec fn any_mutation(ops: Seq<OperationView>) -> bool {
    exists|i: int| 0 <= i < ops.len() && mutates(#[trigger] ops[i])
}

/// Where an object is: its pool, key and namespace.
pub open spec fn locator_payload(pool: i64, locator: Seq<u8>, namespace: Seq<u8>) -> Seq<u8> {
    le64(unsigned64(pool)) + (le32(unsigned32((-1int) as i32)) + (prefixed(locator) + (prefixed(namespace)
        + le64(unsigned64((-1int) as i64)))))
}

pub open spec fn locator_bytes(pool: i64, locator: Seq<u8>, namespace: Seq<u8>) -> Seq<u8> {
    versioned(6, 3, locator_payload(pool, locator, namespace))
}

/// The extent in the descriptor of an operation.
pub open spec fn operation_extent(op: OperationView) -> (u64, u64) {
    match op {
        OperationView::Read { offset, length } => (offset, length),
        OperationView::Zero { offset, length } => (offset, length),
        OperationView::Write { offset, data } => (offset, data.len() as u64),
        OperationView::WriteFull(data) => (0, data.len() as u64),
        OperationView::Append(data) => (0, data.len() as u64),
        OperationView::Truncate { size } => (size, 0),
        _ => (0, 0),
    }
}

/// A length as it is written: the largest one where it does not fit.
pub open spec fn clamped(length: nat) -> u32 {
    if length <= u32::MAX {
        length as u32
    } else {
        u32::MAX
    }
}

/// The descriptor of an operation: code, flags, extent and the length of its data.
pub open spec fn operation_bytes(op: OperationView) -> Seq<u8> {
    le16(operation_code(op)) + (le32(
        if op == (OperationView::Create { exclusive: true }) {
            OP_FLAG_EXCLUSIVE
        } else {
            0
        },
    ) + (le64(operation_extent(op).0) + (le64(operation_extent(op).1) + (zeros(12) + le32(
        clamped(operation_data(op).len()),
    )))))
}

pub open spec fn operation_encoder() -> spec_fn(OperationView) -> Seq<u8> {
    |op: OperationView| operation_bytes(op)
}

pub open spec fn u64_encoder() -> spec_fn(u64) -> Seq<u8> {
    |x: u64| le64(x)
}

pub open spec fn data_encoder() -> spec_fn(OperationView) -> Seq<u8> {
    |op: OperationView| operation_data(op)
}

/// The data of all operations.
pub open spec fn all_data(ops: Seq<OperationView>) -> Seq<u8> {
    concatenated(ops, data_encoder())
}

/// What identifies a request across attempts.
pub open spec fn request_id_payload(global_id: u64, transaction_id: u64, incarnation: i32) -> Seq<
    u8,
> {
    seq![8u8] + (le64(global_id) + (le64(transaction_id) + le32(unsigned32(incarnation))))
}

/// What comes before the operations of a request.
pub open spec fn request_head(r: Request<'_>) -> Seq<u8> {
    let ops = operations_view(r.operations@);
    let kind: u32 = if any_mutation(ops) {
        FLAG_WRITE | FLAG_ON_DISK
    } else {
        FLAG_READ
    };
    spg_bytes(
        r.pg,
        if r.sharded {
            r.shard
        } else {
            (-1int) as i8
        },
    ) + (le32(r.object_hash) + (le32(r.map_epoch) + (le32(kind | r.flags) + (versioned(
        2,
        2,
        request_id_payload(r.client_global_id, r.transaction_id, r.client_incarnation),
    ) + (zeros(24) + (le32(unsigned32(r.client_incarnation)) + (zeros(8) + (locator_bytes(
        r.pool_id,
        r.locator@,
        r.namespace@,
    ) + (prefixed(r.object@) + le16(ops.len() as u16))))))))))
}

/// What comes after the operations of a request.
pub open spec fn request_tail(r: Request<'_>) -> Seq<u8> {
    le64(r.snapshot) + (le64(r.snapshot_sequence) + (le32(r.write_snapshots@.len() as u32) + (
    concatenated(r.write_snapshots@, u64_encoder()) + (le32(unsigned32(r.retry)) + le64(
        r.features,
    )))))
}

/// The front of a request.
pub open spec fn request_front(r: Request<'_>) -> Seq<u8> {
    request_head(r) + (concatenated(operations_view(r.operations@), operation_encoder())
        + request_tail(r))
}

/// What `encode_request` yields: a message of the request's front and the data of its operations,
/// unless they are more than the limits take.
pub open spec fn request_encoding(r: Request<'_>, limits: Limits) -> Result<MessageView, Error> {
    let ops = operations_view(r.operations@);
    let front = request_front(r);
    let data = all_data(ops);
    if limits.max_bytes == 0 || limits.max_operations == 0 || r.pool_id < 0 || ops.len() == 0
        || ops.len() > limits.max_operations || ops.len() > u16::MAX || front.len() + data.len()
        > limits.max_bytes {
        Err(Error::Wire(WireError::LimitExceeded))
    } else {
        Ok(
            MessageView {
                header: MessageHeader {
                    transaction_id: r.transaction_id,
                    message_type: MESSAGE_OSD_OP,
                    version: 8,
                    compat_version: 3,
                    ..zero_header()
                },
                lengths: MessageLengths {
                    front: front.len() as u32,
                    middle: 0,
                    data: data.len() as u32,
                },
                front,
                middle: Seq::empty(),
                data,
            },
        )
    }
}

pub open spec fn all_described(ops: Seq<OperationView>) -> bool {
    forall|i: int| 0 <= i < ops.len() ==> described(#[trigger] ops[i])
}

/// Whether one of the operations changes the object.
pub fn contains_mutation(operations: &[Operation]) -> (r: bool)
    ensures
        r == any_mutation(operations_view(operations@)),
{
    let ghost ops = operations_view(operations@);
    let mut i: usize = 0;
    while i < operations.len()
        invariant
            i <= operations@.len(),
            ops == operations_view(operations@),
            forall|j: int| 0 <= j < i ==> !mutates(#[trigger] ops[j]),
        decreases operations@.len() - i,
    {
        assert(ops[i as int] == operations@[i as int]@);
        if operations[i].is_mutation() {
            return true;
        }
        i = i + 1;
    }
    false
}

fn encode_locator(encoder: &mut Encoder, pool: i64, locator: &[u8], namespace: &[u8])
    requires
        old(encoder).wf(),
    ensures
        final(encoder).wf(),
        final(encoder).limit() == old(encoder).limit(),
        final(encoder)@ == old(encoder)@ + locator_bytes(pool, locator@, namespace@),
{
    let mut payload = encoder.nested();
    payload.i64(pool);
    payload.i32(-1);
    payload.bytes(locator);
    payload.bytes(namespace);
    payload.i64(-1);
    assert(payload@ =~= locator_payload(pool, locator@, namespace@));
    encoder.versioned(6, 3, payload);
}

fn encode_zeros(encoder: &mut Encoder, count: usize)
    requires
        old(encoder).wf(),
    ensures
        final(encoder).wf(),
        final(encoder).limit() == old(encoder).limit(),
        final(encoder)@ == old(encoder)@ + zeros(count as nat),
{
    let mut i: usize = 0;
    assert(encoder@ =~= old(encoder)@ + zeros(0));
    while i < count
        invariant
            i <= count,
            encoder.wf(),
            encoder.limit() == old(encoder).limit(),
            encoder@ =~= old(encoder)@ + zeros(i as nat),
        decreases count - i,
    {
        encoder.u8(0);
        i = i + 1;
    }
}

/// Writes the descriptor of an operation.
pub fn encode_operation(encoder: &mut Encoder, operation: &Operation)
    requires
        old(encoder).wf(),
        described(operation@),
    ensures
        final(encoder).wf(),
        final(encoder).limit() == old(encoder).limit(),
        final(encoder)@ == old(encoder)@ + operation_bytes(operation@),
{
    let flags: u32 = match operation {
        Operation::Create { exclusive: true } => OP_FLAG_EXCLUSIVE,
        _ => 0,
    };
    let (offset, length): (u64, u64) = match operation {
        Operation::Read { offset, length } => (*offset, *length),
        Operation::Zero { offset, length } => (*offset, *length),
        Operation::Write { offset, data } => (*offset, data.len() as u64),
        Operation::WriteFull(data) => (0, data.len() as u64),
        Operation::Append(data) => (0, data.len() as u64),
        Operation::Truncate { size } => (*size, 0),
        _ => (0, 0),
    };
    let size: usize = match operation.data() {
        Some(data) => data.len(),
        None => 0,
    };
    let clamped_size: u32 = if size as u64 > u32::MAX as u64 {
        u32::MAX
    } else {
        size as u32
    };
    encoder.u16(operation.code());
    encoder.u32(flags);
    encoder.u64(offset);
    encoder.u64(length);
    encode_zeros(encoder, 12);
    encoder.u32(clamped_size);
    assert(encoder@ =~= old(encoder)@ + operation_bytes(operation@));
}

#[verifier::rlimit(60)]
#[verifier::spinoff_prover]
fn encode_head(encoder: &mut Encoder, request: &Request<'_>)
    requires
        old(encoder).wf(),
        request.operations@.len() <= u16::MAX,
    ensures
        final(encoder).wf(),
        final(encoder).limit() == old(encoder).limit(),
        final(encoder)@ == old(encoder)@ + request_head(*request),
{
    let kind: u32 = if contains_mutation(request.operations) {
        FLAG_WRITE | FLAG_ON_DISK
    } else {
        FLAG_READ
    };
    let shard: i8 = if request.sharded {
        request.shard
    } else {
        -1
    };
    encode_spg(encoder, request.pg, shard);
    encoder.u32(request.object_hash);
    encoder.u32(request.map_epoch);
    encoder.u32(kind | request.flags);
    let mut request_id = encoder.nested();
    request_id.u8(8);
    request_id.u64(request.client_global_id);
    request_id.u64(request.transaction_id);
    request_id.i32(request.client_incarnation);
    assert(request_id@ =~= request_id_payload(
        request.client_global_id,
        request.transaction_id,
        request.client_incarnation,
    ));
    encoder.versioned(2, 2, request_id);
    encode_zeros(encoder, 24);
    encoder.i32(request.client_incarnation);
    encode_zeros(encoder, 8);
    encode_locator(encoder, request.pool_id, request.locator, request.namespace);
    encoder.bytes(request.object);
    encoder.u16(request.operations.len() as u16);
    assert(encoder@ =~= old(encoder)@ + request_head(*request));
}

fn encode_operations(encoder: &mut Encoder, operations: &[Operation])
    requires
        old(encoder).wf(),
        all_described(operations_view(operations@)),
    ensures
        final(encoder).wf(),
        final(encoder).limit() == old(encoder).limit(),
        final(encoder)@ == old(encoder)@ + concatenated(
            operations_view(operations@),
            operation_encoder(),
        ),
{
    let ghost all = operations_view(operations@);
    let ghost start = encoder@;
    let mut i: usize = 0;
    assert(encoder@ =~= start + concatenated(all.take(0), operation_encoder()));
    while i < operations.len()
        invariant
            i <= operations@.len(),
            all == operations_view(operations@),
            all_described(all),
            encoder.wf(),
            encoder.limit() == old(encoder).limit(),
            encoder@ == start + concatenated(all.take(i as int), operation_encoder()),
        decreases operations@.len() - i,
    {
        assert(all[i as int] == operations@[i as int]@);
        encode_operation(encoder, &operations[i]);
        assert(all.take(i + 1).drop_last() =~= all.take(i as int));
        assert(encoder@ =~= start + concatenated(all.take(i + 1), operation_encoder()));
        i = i + 1;
    }
    assert(all.take(i as int) =~= all);
}

fn encode_tail(encoder: &mut Encoder, request: &Request<'_>)
    requires
        old(encoder).wf(),
    ensures
        final(encoder).wf(),
        final(encoder).limit() == old(encoder).limit(),
        final(encoder)@ == old(encoder)@ + request_tail(*request),
{
    encoder.u64(request.snapshot);
    encoder.u64(request.snapshot_sequence);
    encoder.u32(#[verifier::truncate] (request.write_snapshots.len() as u32));
    let ghost all = request.write_snapshots@;
    let ghost start = encoder@;
    let mut i: usize = 0;
    assert(encoder@ =~= start + concatenated(all.take(0), u64_encoder()));
    while i < request.write_snapshots.len()
        invariant
            i <= request.write_snapshots@.len(),
            all == request.write_snapshots@,
            encoder.wf(),
            encoder.limit() == old(encoder).limit(),
            encoder@ == start + concatenated(all.take(i as int), u64_encoder()),
        decreases request.write_snapshots@.len() - i,
    {
        encoder.u64(request.write_snapshots[i]);
        assert(all.take(i + 1).drop_last() =~= all.take(i as int));
        assert(encoder@ =~= start + concatenated(all.take(i + 1), u64_encoder()));
        i = i + 1;
    }
    assert(all.take(i as int) =~= all);
    encoder.i32(request.retry);
    encoder.u64(request.features);
    assert(encoder@ =~= old(encoder)@ + request_tail(*request));
}

proof fn lemma_data_grows(ops: Seq<OperationView>, n: int)
    requires
        0 <= n <= ops.len(),
    ensures
        all_data(ops.take(n)).len() <= all_data(ops).len(),
    decreases ops.len() - n,
{
    if n < ops.len() {
        lemma_data_grows(ops, n + 1);
        assert(ops.take(n + 1).drop_last() =~= ops.take(n));
    } else {
        assert(ops.take(n) =~= ops);
    }
}

/// The data of all operations, if it is at most `max` bytes.
fn collect_data(operations: &[Operation], max: usize) -> (r: Option<Vec<u8>>)
    requires
        all_described(operations_view(operations@)),
    ensures
        r matches Some(data) ==> data@ == all_data(operations_view(operations@)) && data@.len()
            <= max,
        r is None ==> all_data(operations_view(operations@)).len() > max,
{
    let ghost all = operations_view(operations@);
    let mut data: Vec<u8> = Vec::new();
    let mut i: usize = 0;
    assert(data@ =~= all_data(all.take(0)));
    while i < operations.len()
        invariant
            i <= operations@.len(),
            all == operations_view(operations@),
            all_described(all),
            data@ == all_data(all.take(i as int)),
            data@.len() <= max,
        decreases operations@.len() - i,
    {
        assert(all[i as int] == operations@[i as int]@);
        assert(all.take(i + 1).drop_last() =~= all.take(i as int));
        proof {
            lemma_data_grows(all, i + 1);
        }
        match operations[i].data() {
            Some(bytes) => {
                if bytes.len() > max - data.len() {
                    return None;
                }
                crate::wire::append_bytes(&mut data, bytes.as_slice());
            },
            None => {},
        }
        assert(data@ =~= all_data(all.take(i + 1)));
        i = i + 1;
    }
    assert(all.take(i as int) =~= all);
    Some(data)
}

/// A request as a message.
pub fn encode_request(request: &Request<'_>, limits: Limits) -> (r: Result<Message, Error>)
    requires
        all_described(operations_view(request.operations@)),
    ensures
        r matches Ok(message) ==> request_encoding(*request, limits) == Ok::<MessageView, Error>(
            message@,
        ),
        r matches Err(error) ==> request_encoding(*request, limits) == Err::<MessageView, Error>(
            error,
        ),
{
    if limits.max_bytes == 0 || limits.max_operations == 0 || request.pool_id < 0
        || request.operations.len() == 0 || request.operations.len()
        > limits.max_operations as usize || request.operations.len() > u16::MAX as usize {
        return Err(Error::Wire(WireError::LimitExceeded));
    }
    let mut encoder = Encoder::new(limits.max_bytes as usize);
    encode_head(&mut encoder, request);
    encode_operations(&mut encoder, request.operations);
    encode_tail(&mut encoder, request);
    assert(encoder@ =~= request_front(*request));
    let front = match encoder.finish() {
        Ok(front) => front,
        Err(error) => {
            return Err(Error::Wire(error));
        },
    };
    let data = match collect_data(request.operations, limits.max_bytes as usize - front.len()) {
        Some(data) => data,
        None => {
            return Err(Error::Wire(WireError::LimitExceeded));
        },
    };
    let message = Message {
        header: MessageHeader {
            transaction_id: request.transaction_id,
            message_type: MESSAGE_OSD_OP,
            version: 8,
            compat_version: 3,
            ..MessageHeader::default()
        },
        lengths: MessageLengths {
            front: front.len() as u32,
            middle: 0,
            data: data.len() as u32,
        },
        front,
        middle: Vec::new(),
        data,
    };
    assert(message@ =~= request_encoding(*request, limits)->Ok_0);
    Ok(message)
}

// ---------------------------------------------------------------------------
// Replies
// ---------------------------------------------------------------------------

/// What became of an operation.
#[derive(Clone, Debug, PartialEq, Eq)]
pub struct OperationResult {
    pub operation: u16,
    pub code: i32,
    pub data: Vec<u8>,
}

pub struct OperationResultView {
    pub operation: u16,
    pub code: i32,
    pub data: Seq<u8>,
}

impl View for OperationResult {
    type V = OperationResultView;

    open spec fn view(&self) -> OperationResultView {
        OperationResultView { operation: self.operation, code: self.code, data: self.data@ }
    }
}

pub open spec fn results_view(results: Seq<OperationResult>) -> Seq<OperationResultView> {
    Seq::new(results.len(), |i: int| results[i]@)
}

/// Where a request is to go instead.
#[derive(Clone, Debug, PartialEq, Eq)]
pub struct Redirect {
    pub pool: i64,
    pub locator: Vec<u8>,
    pub namespace: Vec<u8>,
    pub object: Vec<u8>,
}

pub struct RedirectView {
    pub pool: i64,
    pub locator: Seq<u8>,
    pub namespace: Seq<u8>,
    pub object: Seq<u8>,
}

impl View for Redirect {
    type V = RedirectView;

    open spec fn view(&self) -> RedirectView {
        RedirectView {
            pool: self.pool,
            locator: self.locator@,
            namespace: self.namespace@,
            object: self.object@,
        }
    }
}

#[derive(Clone, Debug, PartialEq, Eq)]
pub struct Reply {
    pub object: Vec<u8>,
    pub pg: PG,
    pub flags: i64,
    pub result: i32,
    pub map_epoch: u32,
    pub retry: i32,
    pub version: u64,
    pub redirect: Option<Redirect>,
    pub operations: Vec<OperationResult>,
}

pub struct ReplyView {
    pub object: Seq<u8>,
    pub pg: PG,
    pub flags: i64,
    pub result: i32,
    pub map_epoch: u32,
    pub retry: i32,
    pub version: u64,
    pub redirect: Option<RedirectView>,
    pub operations: Seq<OperationResultView>,
}

pub open spec fn redirect_view(redirect: Option<Redirect>) -> Option<RedirectView> {
    match redirect {
        Some(redirect) => Some(redirect@),
        None => None,
    }
}

impl View for Reply {
    type V = ReplyView;

    open spec fn view(&self) -> ReplyView {
        ReplyView {
            object: self.object@,
            pg: self.pg,
            flags: self.flags,
            result: self.result,
            map_epoch: self.map_epoch,
            retry: self.retry,
            version: self.version,
            redirect: redirect_view(self.redirect),
            operations: results_view(self.operations@),
        }
    }
}

/// The next placement group of the input.
#[verifier::opaque]
pub open spec fn get_pg(d: Input) -> Result<(PG, Input), Error> {
    let (marker, d1) = get_u8(d);
    let (pool, d2) = get_u64(d1);
    let (seed, d3) = get_u32(d2);
    let (preferred, d4) = get_i32(d3);
    if marker != 1 {
        Err(Error::UnsupportedVersion)
    } else if finished(d4) is Err {
        Err(Error::Wire(finished(d4)->Err_0))
    } else {
        Ok((PG { pool, seed, preferred }, d4))
    }
}

/// What is left after a placement group, read or refused: a wrong marker is all that is taken.
pub open spec fn pg_left(d: Input) -> Input {
    let (marker, d1) = get_u8(d);
    if marker != 1 {
        d1
    } else {
        get_i32(get_u32(get_u64(d1).1).1).1
    }
}

/// The place that the locator of a redirect names.
#[verifier::opaque]
pub open spec fn redirect_place(version: u8, d: Input) -> Result<
    (i64, Seq<u8>, Seq<u8>),
    Error,
> {
    let (pool, d1) = get_i64(d);
    let (preferred, d2) = get_i32(d1);
    let (key, d3) = get_bytes(d2);
    let (namespace, d4) = get_bytes(d3);
    let d5 = if version >= 6 {
        get_i64(d4).1
    } else {
        d4
    };
    if finished(d5) is Err {
        Err(Error::Wire(finished(d5)->Err_0))
    } else if d5.rest.len() != 0 {
        Err(Error::Malformed)
    } else {
        Ok((pool, key, namespace))
    }
}

/// The next redirect of the input.
#[verifier::opaque]
pub open spec fn get_redirect(d: Input) -> Result<(RedirectView, Input), Error> {
    let (version, payload, rest) = get_versioned(d, 1);
    let (locator_version, locator, d1) = get_versioned(payload, 6);
    let place = redirect_place(locator_version, locator);
    let (object, d2) = get_bytes(d1);
    let (legacy_length, d3) = get_u32(d2);
    let d4 = get_raw(d3, legacy_length as nat).1;
    if finished(rest) is Err {
        Err(Error::Wire(finished(rest)->Err_0))
    } else if version != 1 {
        Err(Error::UnsupportedVersion)
    } else if finished(d1) is Err {
        Err(Error::Wire(finished(d1)->Err_0))
    } else if locator_version < 3 {
        Err(Error::UnsupportedVersion)
    } else if place is Err {
        Err(place->Err_0)
    } else if legacy_length > d3.rest.len() {
        Err(Error::Malformed)
    } else if finished(d4) is Err {
        Err(Error::Wire(finished(d4)->Err_0))
    } else if d4.rest.len() != 0 {
        Err(Error::Malformed)
    } else {
        Ok(
            (
                RedirectView {
                    pool: place->Ok_0.0,
                    locator: place->Ok_0.1,
                    namespace: place->Ok_0.2,
                    object,
                },
                rest,
            ),
        )
    }
}

/// The descriptor of an operation in a reply: its code and the length of its data.
pub open spec fn descriptor_decoder() -> spec_fn(Input) -> Result<((u16, u32), Input), Error> {
    |d: Input|
        {
            let (operation, d1) = get_u16(d);
            let d2 = get_raw(d1, 32).1;
            let (length, d3) = get_u32(d2);
            Ok(((operation, length), d3))
        }
}

pub open spec fn code_decoder() -> spec_fn(Input) -> Result<(i32, Input), Error> {
    |d: Input| Ok(get_i32(d))
}

/// The data of a reply in pieces of these lengths, and how much of it they are.
pub open spec fn pieces(descriptors: Seq<(u16, u32)>, data: Seq<u8>) -> Result<
    (Seq<Seq<u8>>, nat),
    Error,
>
    decreases descriptors.len(),
{
    if descriptors.len() == 0 {
        Ok((Seq::empty(), 0))
    } else {
        match pieces(descriptors.drop_last(), data) {
            Err(error) => Err(error),
            Ok((before, offset)) => {
                let end = offset + descriptors.last().1;
                if end > usize::MAX {
                    Err(Error::Wire(WireError::LimitExceeded))
                } else if end > data.len() {
                    Err(Error::Malformed)
                } else {
                    Ok((before.push(data.subrange(offset as int, end as int)), end as nat))
                }
            },
        }
    }
}

pub open spec fn results_of(
    descriptors: Seq<(u16, u32)>,
    codes: Seq<i32>,
    data: Seq<Seq<u8>>,
) -> Seq<OperationResultView> {
    Seq::new(
        descriptors.len(),
        |i: int|
            OperationResultView { operation: descriptors[i].0, code: codes[i], data: data[i] },
    )
}

/// The rest of a reply: its version, where to go instead, and nothing more.
#[verifier::opaque]
pub open spec fn reply_end(version: u16, d: Input) -> Result<(u64, Option<RedirectView>), Error> {
    let d1 = get_raw(d, 12).1;
    let (object_version, d2) = get_u64(d1);
    let (redirected, d3) = if version >= 7 {
        get_bool(d2)
    } else {
        (false, d2)
    };
    let redirect = get_redirect(d3);
    let after = if redirected {
        redirect->Ok_0.1
    } else {
        d3
    };
    let d4 = if version >= 8 {
        get_raw(after, 24).1
    } else {
        after
    };
    if version == 6 {
        Err(Error::UnsupportedVersion)
    } else if redirected && redirect is Err {
        Err(redirect->Err_0)
    } else if finished(d4) is Err {
        Err(Error::Wire(finished(d4)->Err_0))
    } else if d4.rest.len() != 0 {
        Err(Error::Malformed)
    } else {
        Ok(
            (
                object_version,
                if redirected {
                    Some(redirect->Ok_0.0)
                } else {
                    None
                },
            ),
        )
    }
}

/// The operations of a reply and what comes with them: their descriptors, the attempt that is
/// answered, their codes, and the rest of the input.
#[verifier::opaque]
pub open spec fn get_results(d: Input, count: nat) -> (Seq<(u16, u32)>, i32, Seq<i32>, Input) {
    let (descriptors, d1) = get_many(d, count, descriptor_decoder())->Ok_0;
    let (retry, d2) = get_i32(d1);
    let (codes, d3) = get_many(d2, count, code_decoder())->Ok_0;
    (descriptors, retry, codes, d3)
}

/// What `decode_reply` yields.
#[verifier::opaque]
pub open spec fn reply_decoding(m: MessageView, limits: Limits) -> Result<ReplyView, Error> {
    let total = m.front.len() + m.middle.len() + m.data.len();
    let (object, d1) = get_bytes(limited_input(m.front, limits.max_bytes as nat));
    if total > usize::MAX {
        Err(Error::Wire(WireError::LimitExceeded))
    } else if limits.max_bytes == 0 || limits.max_operations == 0 || m.header.message_type
        != MESSAGE_OSD_OP_REPLY || m.header.version < 4 || m.header.compat_version > 8 || total
        > limits.max_bytes {
        Err(Error::Malformed)
    } else {
        match get_pg(d1) {
            Err(error) => Err(error),
            Ok((pg, d2)) => {
                let (flags, d3) = get_i64(d2);
                let (result, d4) = get_i32(d3);
                let d5 = get_raw(d4, 12).1;
                let (map_epoch, d6) = get_u32(d5);
                let (count, d7) = get_u32(d6);
                if finished(d7) is Err {
                    Err(Error::Wire(finished(d7)->Err_0))
                } else if count > limits.max_operations || count * OPERATION_DESCRIPTOR_SIZE
                    > d7.rest.len() {
                    Err(Error::Wire(WireError::LimitExceeded))
                } else {
                    let (descriptors, retry, codes, d8) = get_results(d7, count as nat);
                    match reply_end(m.header.version, d8) {
                        Err(error) => Err(error),
                        Ok((version, redirect)) => match pieces(descriptors, m.data) {
                            Err(error) => Err(error),
                            Ok((data, used)) => if used != m.data.len() {
                                Err(Error::Malformed)
                            } else {
                                Ok(
                                    ReplyView {
                                        object,
                                        pg,
                                        flags,
                                        result,
                                        map_epoch,
                                        retry,
                                        version,
                                        redirect,
                                        operations: results_of(descriptors, codes, data),
                                    },
                                )
                            },
                        },
                    }
                }
            },
        }
    }
}

/// A placement group off the front of the input.
pub fn decode_pg(decoder: &mut Decoder<'_>) -> (r: Result<PG, Error>)
    ensures
        r matches Ok(pg) ==> get_pg(old(decoder)@) == Ok::<(PG, Input), Error>(
            (pg, final(decoder)@),
        ),
        r matches Err(error) ==> get_pg(old(decoder)@) == Err::<(PG, Input), Error>(error),
        final(decoder)@ == pg_left(old(decoder)@),
{
    reveal(get_pg);
    if decoder.u8() != 1 {
        return Err(Error::UnsupportedVersion);
    }
    let pool: u64 = decoder.u64();
    let seed: u32 = decoder.u32();
    let preferred: i32 = decoder.i32();
    match decoder.finish() {
        Ok(_) => Ok(PG { pool, seed, preferred }),
        Err(error) => Err(Error::Wire(error)),
    }
}

/// Writes a placement group.
pub fn encode_pg(encoder: &mut Encoder, pg: PG)
    requires
        old(encoder).wf(),
    ensures
        final(encoder).wf(),
        final(encoder).limit() == old(encoder).limit(),
        final(encoder)@ == old(encoder)@ + (seq![1u8] + (le64(pg.pool) + (le32(pg.seed) + le32(
            unsigned32(pg.preferred),
        )))),
{
    encoder.u8(1);
    encoder.u64(pg.pool);
    encoder.u32(pg.seed);
    encoder.i32(pg.preferred);
    assert(encoder@ =~= old(encoder)@ + (seq![1u8] + (le64(pg.pool) + (le32(pg.seed) + le32(
        unsigned32(pg.preferred),
    )))));
}

fn decode_redirect_place(version: u8, locator: &mut Decoder<'_>) -> (r: Result<
    (i64, Vec<u8>, Vec<u8>),
    Error,
>)
    ensures
        r matches Ok(place) ==> redirect_place(version, old(locator)@) == Ok::<
            (i64, Seq<u8>, Seq<u8>),
            Error,
        >((place.0, place.1@, place.2@)),
        r matches Err(error) ==> redirect_place(version, old(locator)@) == Err::<
            (i64, Seq<u8>, Seq<u8>),
            Error,
        >(error),
{
    reveal(redirect_place);
    let pool: i64 = locator.i64();
    locator.i32();
    let key = locator.bytes();
    let namespace = locator.bytes();
    if version >= 6 {
        locator.i64();
    }
    match locator.finish() {
        Ok(_) => {},
        Err(error) => {
            return Err(Error::Wire(error));
        },
    }
    if locator.remaining() != 0 {
        return Err(Error::Malformed);
    }
    Ok((pool, key, namespace))
}

fn decode_redirect(decoder: &mut Decoder<'_>) -> (r: Result<Redirect, Error>)
    ensures
        r matches Ok(redirect) ==> get_redirect(old(decoder)@) == Ok::<
            (RedirectView, Input),
            Error,
        >((redirect@, final(decoder)@)),
        r matches Err(error) ==> get_redirect(old(decoder)@) == Err::<
            (RedirectView, Input),
            Error,
        >(error),
{
    reveal(get_redirect);
    let (version, mut payload) = decoder.versioned(1);
    match decoder.finish() {
        Ok(_) => {},
        Err(error) => {
            return Err(Error::Wire(error));
        },
    }
    if version != 1 {
        return Err(Error::UnsupportedVersion);
    }
    let (locator_version, mut locator) = payload.versioned(6);
    match payload.finish() {
        Ok(_) => {},
        Err(error) => {
            return Err(Error::Wire(error));
        },
    }
    if locator_version < 3 {
        return Err(Error::UnsupportedVersion);
    }
    let (pool, key, namespace) = decode_redirect_place(locator_version, &mut locator)?;
    let object = payload.bytes();
    let legacy_length: u32 = payload.u32();
    if legacy_length as usize > payload.remaining() {
        return Err(Error::Malformed);
    }
    payload.raw(legacy_length as usize);
    match payload.finish() {
        Ok(_) => {},
        Err(error) => {
            return Err(Error::Wire(error));
        },
    }
    if payload.remaining() != 0 {
        return Err(Error::Malformed);
    }
    Ok(Redirect { pool, locator: key, namespace, object })
}

fn decode_results(decoder: &mut Decoder<'_>, count: u32) -> (r: (Vec<(u16, u32)>, i32, Vec<i32>))
    ensures
        get_results(old(decoder)@, count as nat) == (r.0@, r.1, r.2@, final(decoder)@),
        r.0@.len() == count,
        r.2@.len() == count,
{
    reveal(get_results);
    let ghost start = decoder@;
    let mut descriptors: Vec<(u16, u32)> = Vec::new();
    let mut i: u32 = 0;
    while i < count
        invariant
            i <= count,
            descriptors@.len() == i,
            get_many(start, i as nat, descriptor_decoder()) == Ok::<
                (Seq<(u16, u32)>, Input),
                Error,
            >((descriptors@, decoder@)),
        decreases count - i,
    {
        let operation: u16 = decoder.u16();
        decoder.raw(32);
        let length: u32 = decoder.u32();
        descriptors.push((operation, length));
        i = i + 1;
    }
    let retry: i32 = decoder.i32();
    let ghost middle = decoder@;
    let mut codes: Vec<i32> = Vec::new();
    i = 0;
    while i < count
        invariant
            i <= count,
            codes@.len() == i,
            get_many(middle, i as nat, code_decoder()) == Ok::<(Seq<i32>, Input), Error>(
                (codes@, decoder@),
            ),
        decreases count - i,
    {
        let code: i32 = decoder.i32();
        codes.push(code);
        i = i + 1;
    }
    (descriptors, retry, codes)
}

fn decode_reply_end(version: u16, decoder: &mut Decoder<'_>) -> (r: Result<
    (u64, Option<Redirect>),
    Error,
>)
    ensures
        r matches Ok(end) ==> reply_end(version, old(decoder)@) == Ok::<
            (u64, Option<RedirectView>),
            Error,
        >((end.0, redirect_view(end.1))),
        r matches Err(error) ==> reply_end(version, old(decoder)@) == Err::<
            (u64, Option<RedirectView>),
            Error,
        >(error),
{
    reveal(reply_end);
    decoder.raw(12);
    let object_version: u64 = decoder.u64();
    if version == 6 {
        return Err(Error::UnsupportedVersion);
    }
    let mut redirect: Option<Redirect> = None;
    if version >= 7 && decoder.bool() {
        redirect = Some(decode_redirect(decoder)?);
    }
    if version >= 8 {
        decoder.raw(24);
    }
    match decoder.finish() {
        Ok(_) => {},
        Err(error) => {
            return Err(Error::Wire(error));
        },
    }
    if decoder.remaining() != 0 {
        return Err(Error::Malformed);
    }
    Ok((object_version, redirect))
}

proof fn lemma_pieces_error(descriptors: Seq<(u16, u32)>, data: Seq<u8>, n: int)
    requires
        0 <= n <= descriptors.len(),
        pieces(descriptors.take(n), data) is Err,
    ensures
        pieces(descriptors, data) == pieces(descriptors.take(n), data),
    decreases descriptors.len() - n,
{
    if n < descriptors.len() {
        assert(descriptors.take(n + 1).drop_last() =~= descriptors.take(n));
        lemma_pieces_error(descriptors, data, n + 1);
    } else {
        assert(descriptors.take(n) =~= descriptors);
    }
}

/// The results of the operations with their data, which must be all of `data`.
fn split_data(descriptors: &Vec<(u16, u32)>, codes: &Vec<i32>, data: &[u8]) -> (r: Result<
    Vec<OperationResult>,
    Error,
>)
    requires
        codes@.len() == descriptors@.len(),
    ensures
        match pieces(descriptors@, data@) {
            Err(error) => r == Err::<Vec<OperationResult>, Error>(error),
            Ok((parts, used)) => if used != data@.len() {
                r == Err::<Vec<OperationResult>, Error>(Error::Malformed)
            } else {
                r matches Ok(results) && results_view(results@) == results_of(
                    descriptors@,
                    codes@,
                    parts,
                )
            },
        },
{
    let ghost all = descriptors@;
    let ghost mut parts: Seq<Seq<u8>> = Seq::empty();
    let mut results: Vec<OperationResult> = Vec::new();
    let mut offset: usize = 0;
    let mut i: usize = 0;
    assert(all.take(0) =~= Seq::empty());
    while i < descriptors.len()
        invariant
            i <= descriptors@.len(),
            all == descriptors@,
            codes@.len() == descriptors@.len(),
            offset <= data@.len(),
            parts.len() == i,
            results@.len() == i,
            pieces(all.take(i as int), data@) == Ok::<(Seq<Seq<u8>>, nat), Error>(
                (parts, offset as nat),
            ),
            forall|j: int|
                0 <= j < i ==> (#[trigger] results@[j])@ == (OperationResultView {
                    operation: all[j].0,
                    code: codes@[j],
                    data: parts[j],
                }),
        decreases descriptors@.len() - i,
    {
        let ghost total: nat = data@.len();
        let size: usize = data.len();
        assert(all.take(i + 1).drop_last() =~= all.take(i as int));
        assert(all.take(i + 1).last() == all[i as int]);
        let length: u32 = descriptors[i].1;
        let end: usize = match offset.checked_add(length as usize) {
            Some(end) => end,
            None => {
                proof {
                    lemma_pieces_error(all, data@, i + 1);
                }
                return Err(Error::Wire(WireError::LimitExceeded));
            },
        };
        if end > size {
            proof {
                lemma_pieces_error(all, data@, i + 1);
            }
            return Err(Error::Malformed);
        }
        let part = slice_subrange(data, offset, end);
        results.push(
            OperationResult {
                operation: descriptors[i].0,
                code: codes[i],
                data: slice_to_vec(part),
            },
        );
        proof {
            parts = parts.push(part@);
        }
        offset = end;
        i = i + 1;
    }
    assert(all.take(i as int) =~= all);
    if offset != data.len() {
        return Err(Error::Malformed);
    }
    assert(results_view(results@) =~= results_of(descriptors@, codes@, parts));
    Ok(results)
}

/// The reply that a message holds.
pub fn decode_reply(message: &Message, limits: Limits) -> (r: Result<Reply, Error>)
    ensures
        r matches Ok(reply) ==> reply_decoding(message@, limits) == Ok::<ReplyView, Error>(reply@),
        r matches Err(error) ==> reply_decoding(message@, limits) == Err::<ReplyView, Error>(
            error,
        ),
{
    reveal(reply_decoding);
    let total: usize = match message.front.len().checked_add(message.middle.len()) {
        Some(part) => match part.checked_add(message.data.len()) {
            Some(total) => total,
            None => {
                return Err(Error::Wire(WireError::LimitExceeded));
            },
        },
        None => {
            return Err(Error::Wire(WireError::LimitExceeded));
        },
    };
    if limits.max_bytes == 0 || limits.max_operations == 0 || message.header.message_type
        != MESSAGE_OSD_OP_REPLY || message.header.version < 4 || message.header.compat_version > 8
        || total > limits.max_bytes as usize {
        return Err(Error::Malformed);
    }
    let mut decoder = Decoder::new(message.front.as_slice(), limits.max_bytes as usize);
    let object = decoder.bytes();
    let pg = decode_pg(&mut decoder)?;
    let flags: i64 = decoder.i64();
    let result: i32 = decoder.i32();
    decoder.raw(12);
    let map_epoch: u32 = decoder.u32();
    let count: u32 = decoder.u32();
    match decoder.finish() {
        Ok(_) => {},
        Err(error) => {
            return Err(Error::Wire(error));
        },
    }
    if count > limits.max_operations || count as u64 * OPERATION_DESCRIPTOR_SIZE as u64
        > decoder.remaining() as u64 {
        return Err(Error::Wire(WireError::LimitExceeded));
    }
    let (descriptors, retry, codes) = decode_results(&mut decoder, count);
    let (version, redirect) = decode_reply_end(message.header.version, &mut decoder)?;
    let operations = split_data(&descriptors, &codes, message.data.as_slice())?;
    Ok(Reply { object, pg, flags, result, map_epoch, retry, version, redirect, operations })
}

pub open spec fn result_data() -> spec_fn(OperationResultView) -> Seq<u8> {
    |r: OperationResultView| r.data
}

proof fn lemma_pieces(descriptors: Seq<(u16, u32)>, codes: Seq<i32>, data: Seq<u8>)
    ensures
        pieces(descriptors, data) matches Ok((parts, used)) ==> {
            &&& parts.len() == descriptors.len()
            &&& used <= data.len()
            &&& concatenated(results_of(descriptors, codes, parts), result_data()) == data.take(
                used as int,
            )
        },
    decreases descriptors.len(),
{
    if descriptors.len() == 0 {
        assert(data.take(0) =~= Seq::empty());
    } else {
        lemma_pieces(descriptors.drop_last(), codes, data);
        match (pieces(descriptors.drop_last(), data), pieces(descriptors, data)) {
            (Ok((before, offset)), Ok((parts, used))) => {
                let results = results_of(descriptors, codes, parts);
                assert(results.drop_last() =~= results_of(
                    descriptors.drop_last(),
                    codes,
                    before,
                ));
                assert(results.last().data == data.subrange(offset as int, used as int));
                assert(data.take(used as int) =~= data.take(offset as int) + data.subrange(
                    offset as int,
                    used as int,
                ));
            },
            _ => {},
        }
    }
}

/// Nothing of a reply's data is lost or shared: the data of its operations, one after the other,
/// is the data of the message. A reply has no more operations than the limits take.
pub proof fn law_reply_data_is_whole(m: MessageView, limits: Limits)
    requires
        reply_decoding(m, limits) is Ok,
    ensures
        concatenated(reply_decoding(m, limits)->Ok_0.operations, result_data()) == m.data,
        reply_decoding(m, limits)->Ok_0.operations.len() <= limits.max_operations,
{
    reveal(reply_decoding);
    reveal(get_results);
    let d1 = get_bytes(limited_input(m.front, limits.max_bytes as nat)).1;
    let d2 = get_pg(d1)->Ok_0.1;
    let d5 = get_raw(get_i32(get_i64(d2).1).1, 12).1;
    let (count, d7) = get_u32(get_u32(d5).1);
    let (descriptors, retry, codes, d8) = get_results(d7, count as nat);
    lemma_pieces(descriptors, codes, m.data);
    lemma_descriptors_len(d7, count as nat);
    assert(m.data.take(m.data.len() as int) =~= m.data);
}

proof fn lemma_descriptors_len(d: Input, count: nat)
    ensures
        get_many(d, count, descriptor_decoder()) is Ok,
        get_many(d, count, descriptor_decoder())->Ok_0.0.len() == count,
    decreases count,
{
    if count > 0 {
        lemma_descriptors_len(d, (count - 1) as nat);
    }
}

// ---------------------------------------------------------------------------
// Views
// ---------------------------------------------------------------------------

/// What stands for a value of this type has its fields.
pub proof fn law_operation_result_has_its_fields(x: OperationResult)
    ensures
        x@.operation == x.operation,
        x@.code == x.code,
        x@.data == x.data@,
{
}

/// What stands for a value of this type has its fields.
pub proof fn law_redirect_has_its_fields(x: Redirect)
    ensures
        x@.pool == x.pool,
        x@.locator == x.locator@,
        x@.namespace == x.namespace@,
        x@.object == x.object@,
{
}

/// What stands for a value of this type has its fields.
pub proof fn law_reply_has_its_fields(x: Reply)
    ensures
        x@.object == x.object@,
        x@.pg == x.pg,
        x@.flags == x.flags,
        x@.result == x.result,
        x@.map_epoch == x.map_epoch,
        x@.retry == x.retry,
        x@.version == x.version,
        x@.redirect == (redirect_view(x.redirect)),
        x@.operations == (results_view(x.operations@)),
{
}

/// What stands for a list has what stands for each of its items, in order.
pub proof fn law_operations_view_keeps_order(operations: Seq<Operation>, i: int)
    requires
        0 <= i < operations.len(),
    ensures
        operations_view(operations).len() == operations.len(),
        operations_view(operations)[i] == operations[i]@,
{
}

/// What stands for a list has what stands for each of its items, in order.
pub proof fn law_results_view_keeps_order(results: Seq<OperationResult>, i: int)
    requires
        0 <= i < results.len(),
    ensures
        results_view(results).len() == results.len(),
        results_view(results)[i] == results[i]@,
{
}

} // verus!
