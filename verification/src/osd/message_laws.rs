//! What is asked of storage daemons reads back field by field, and what they answer is read as they
//! wrote it.

use super::backoff::{spg_bytes, spg_payload};
use super::messages::{
    all_data, any_mutation, code_decoder, described, descriptor_decoder, get_pg, get_redirect,
    get_results, locator_payload, mutates, operation_bytes, operation_data, operation_encoder,
    operation_flags, operation_route, operations_view, pieces, redirect_place, reply_decoding,
    reply_end, request_encoding, request_front, request_head, request_id_payload, request_tail,
    results_of, u64_encoder, Error, Limits, Operation, OperationResultView, OperationView,
    RedirectView, ReplyView, Request,
};
use crate::maps::PG;
use crate::msgr::message::MessageView;
use crate::wire::{
    bool_byte, concatenated, from_le16, from_le32, from_le64, get_bytes, get_i32, get_i64,
    get_i8, get_many, get_raw, get_u16, get_u32, get_u64, get_u8, get_versioned, input,
    law_many, law_raw, law_versioned, le16, le32, le64, limited_input, prefixed, unsigned32,
    unsigned64, unsigned8, versioned, zeros, Input, WireError,
};
use vstd::prelude::*;

verus! {

broadcast use {crate::wire::group_integers, crate::wire::group_reads};

// ---------------------------------------------------------------------------
// Operations
// ---------------------------------------------------------------------------

/// The operation that a descriptor of a request and the data that goes with it describe.
pub open spec fn operation_in(b: Seq<u8>, data: Seq<u8>) -> Option<OperationView> {
    let code = from_le16(b.subrange(0, 2));
    let flags = from_le32(b.subrange(2, 6));
    let offset = from_le64(b.subrange(6, 14));
    let length = from_le64(b.subrange(14, 22));
    if code == 0x1201 {
        Some(OperationView::Read { offset, length })
    } else if code == 0x1202 {
        Some(OperationView::Stat)
    } else if code == 0x2201 {
        Some(OperationView::Write { offset, data })
    } else if code == 0x2202 {
        Some(OperationView::WriteFull(data))
    } else if code == 0x2203 {
        Some(OperationView::Truncate { size: offset })
    } else if code == 0x2204 {
        Some(OperationView::Zero { offset, length })
    } else if code == 0x2205 {
        Some(OperationView::Remove)
    } else if code == 0x2206 {
        Some(OperationView::Append(data))
    } else if code == 0x220d {
        Some(OperationView::Create { exclusive: flags == 1 })
    } else {
        None
    }
}

/// What an operation writes.
pub open spec fn written_by(op: OperationView) -> Seq<u8> {
    match op {
        OperationView::Write { data, .. } => data,
        OperationView::WriteFull(data) => data,
        OperationView::Append(data) => data,
        _ => Seq::empty(),
    }
}

/// The extent of an operation: that of a read or of what is set to zero, the place and the length
/// of what is written, or the new size.
pub open spec fn extent_of(op: OperationView) -> (int, int) {
    match op {
        OperationView::Read { offset, length } => (offset as int, length as int),
        OperationView::Zero { offset, length } => (offset as int, length as int),
        OperationView::Truncate { size } => (size as int, 0),
        OperationView::Write { offset, data } => (offset as int, data.len() as int),
        _ => (0, written_by(op).len() as int),
    }
}

/// What stands for an operation is the same operation, with the same arguments.
pub proof fn law_operation_is_its_case(operation: Operation)
    ensures
        operation@ == (match operation {
        Operation::Read { offset, length } => OperationView::Read { offset, length },
        Operation::Stat => OperationView::Stat,
        Operation::Create { exclusive } => OperationView::Create { exclusive },
        Operation::Write { offset, data } => OperationView::Write { offset, data: data@ },
        Operation::WriteFull(data) => OperationView::WriteFull(data@),
        Operation::Append(data) => OperationView::Append(data@),
        Operation::Truncate { size } => OperationView::Truncate { size },
        Operation::Zero { offset, length } => OperationView::Zero { offset, length },
        Operation::Remove => OperationView::Remove,
        Operation::AssertVersion(version) => OperationView::AssertVersion(version),
        Operation::CompareExtent { offset, data } => OperationView::CompareExtent {
            offset,
            data: data@,
        },
        Operation::GetXattr(name) => OperationView::GetXattr(name@),
        Operation::SetXattr { name, value } => OperationView::SetXattr {
            name: name@,
            value: value@,
        },
        Operation::RemoveXattr(name) => OperationView::RemoveXattr(name@),
        Operation::OmapGetHeader => OperationView::OmapGetHeader,
        Operation::OmapGetValues(payload) => OperationView::OmapGetValues(payload@),
        Operation::OmapSetValues(payload) => OperationView::OmapSetValues(payload@),
        Operation::OmapRemoveKeys(payload) => OperationView::OmapRemoveKeys(payload@),
        Operation::OmapRemoveRange(payload) => OperationView::OmapRemoveRange(payload@),
        Operation::OmapClear => OperationView::OmapClear,
        Operation::OmapSetHeader(value) => OperationView::OmapSetHeader(value@),
        Operation::OmapCompare(payload) => OperationView::OmapCompare(payload@),
        Operation::Call { class_length, method_length, input_length, data, mutation } => {
            OperationView::Call {
                class_length,
                method_length,
                input_length,
                data: data@,
                mutation,
            }
        },
        Operation::Notify { cookie, data } => OperationView::Notify { cookie, data: data@ },
        Operation::NotifyAck { cookie, data } => OperationView::NotifyAck { cookie, data: data@ },
        Operation::PGNList { cursor, cursor_hash, count, start_epoch } => {
            OperationView::PGNList { cursor: cursor@, cursor_hash, count, start_epoch }
        },
        Operation::ScrubList(payload) => OperationView::ScrubList(payload@),
        Operation::WithFlags { operation, flags } => OperationView::WithFlags {
            operation: Box::new(operation@),
            flags,
        },
    }),
{
}

/// Every operation that has a descriptor reads back from it and from its data. An operation that has
/// none does not.
pub proof fn law_operation_reads_back(op: OperationView)
    requires
        written_by(op).len() <= u32::MAX,
    ensures
        described(op) <==> operation_in(operation_bytes(op), written_by(op)) == Some(op),
        operation_bytes(op).len() == 38,
        described(op) ==> {
            let b = operation_bytes(op);
            &&& operation_data(op) == written_by(op)
            &&& from_le32(b.subrange(2, 6)) == if op == (OperationView::Create { exclusive: true }) {
                1u32
            } else {
                0u32
            }
            &&& from_le64(b.subrange(6, 14)) == extent_of(op).0
            &&& from_le64(b.subrange(14, 22)) == extent_of(op).1
            &&& b.subrange(22, 34) == zeros(12)
            &&& from_le32(b.subrange(34, 38)) == written_by(op).len()
        },
{
    let b = operation_bytes(op);
    let code = le16(super::messages::operation_code(op));
    let flags = le32(
        if op == (OperationView::Create { exclusive: true }) {
            super::messages::OP_FLAG_EXCLUSIVE
        } else {
            0
        },
    );
    let extent = super::messages::operation_extent(op);
    let size = le32(super::messages::clamped(operation_data(op).len()));
    assert(b.subrange(0, 2) =~= code);
    assert(b.subrange(2, 6) =~= flags);
    assert(b.subrange(6, 14) =~= le64(extent.0));
    assert(b.subrange(14, 22) =~= le64(extent.1));
    assert(b.subrange(22, 34) =~= zeros(12));
    assert(b.subrange(34, 38) =~= size);
    if described(op) {
        assert(operation_data(op) =~= written_by(op));
    }
}

/// Two operations with the same descriptor and the same data are one operation.
pub proof fn law_operations_are_told_apart(a: OperationView, b: OperationView)
    requires
        described(a),
        described(b),
        written_by(a).len() <= u32::MAX,
        written_by(b).len() <= u32::MAX,
        operation_bytes(a) == operation_bytes(b),
        written_by(a) == written_by(b),
    ensures
        a == b,
{
    law_operation_reads_back(a);
    law_operation_reads_back(b);
}

/// Reads, comparisons, listings and notifications change nothing. Everything else does, but for a
/// call, which says so itself, and flags make no difference. The code of an operation that has a
/// descriptor tells the two kinds apart.
pub proof fn law_reading_changes_nothing(op: OperationView)
    requires
        written_by(op).len() <= u32::MAX,
    ensures
        op is Read || op is Stat || op is AssertVersion || op is CompareExtent || op is GetXattr
            || op is OmapGetHeader || op is OmapGetValues || op is OmapCompare || op is Notify || op
            is NotifyAck || op is PGNList || op is ScrubList ==> !mutates(op),
        op is Create || op is Write || op is WriteFull || op is Append || op is Truncate || op
            is Zero || op is Remove || op is SetXattr || op is RemoveXattr || op is OmapSetValues
            || op is OmapRemoveKeys || op is OmapRemoveRange || op is OmapClear || op
            is OmapSetHeader ==> mutates(op),
        op matches OperationView::Call { mutation, .. } ==> mutates(op) == mutation,
        op matches OperationView::WithFlags { operation, .. } ==> mutates(op) == mutates(
            *operation,
        ),
        described(op) ==> (mutates(op) <==> from_le16(operation_bytes(op).subrange(0, 2))
            >= 0x2000),
{
    law_operation_reads_back(op);
}

/// The data of an operation is what the caller gave: the bytes to write or to compare, the name and
/// the value of an attribute, the payload of an operation on keys or of a call, or the cursor.
pub proof fn law_data_goes_with_its_operation(
    data: Seq<u8>,
    other: Seq<u8>,
    number: u64,
    hash: u32,
    epoch: u32,
    a: u8,
    b: u8,
    flag: bool,
    inner: OperationView,
)
    ensures
        operation_data(OperationView::Write { offset: number, data }) == data,
        operation_data(OperationView::WriteFull(data)) == data,
        operation_data(OperationView::Append(data)) == data,
        operation_data(OperationView::CompareExtent { offset: number, data }) == data,
        operation_data(OperationView::GetXattr(data)) == data,
        operation_data(OperationView::RemoveXattr(data)) == data,
        ({
            let both = operation_data(OperationView::SetXattr { name: data, value: other });
            &&& both.len() == data.len() + other.len()
            &&& both.take(data.len() as int) == data
            &&& both.skip(data.len() as int) == other
        }),
        operation_data(OperationView::OmapGetValues(data)) == data,
        operation_data(OperationView::OmapSetValues(data)) == data,
        operation_data(OperationView::OmapRemoveKeys(data)) == data,
        operation_data(OperationView::OmapRemoveRange(data)) == data,
        operation_data(OperationView::OmapSetHeader(data)) == data,
        operation_data(OperationView::OmapCompare(data)) == data,
        operation_data(
            OperationView::Call {
                class_length: a,
                method_length: b,
                input_length: hash,
                data,
                mutation: flag,
            },
        ) == data,
        operation_data(OperationView::Notify { cookie: number, data }) == data,
        operation_data(OperationView::NotifyAck { cookie: number, data }) == data,
        operation_data(
            OperationView::PGNList {
                cursor: data,
                cursor_hash: hash,
                count: number,
                start_epoch: epoch,
            },
        ) == data,
        operation_data(OperationView::ScrubList(data)) == data,
        operation_data(OperationView::WithFlags { operation: Box::new(inner), flags: hash })
            == operation_data(inner),
        operation_data(OperationView::Stat).len() == 0,
        operation_data(OperationView::Remove).len() == 0,
        operation_data(OperationView::OmapClear).len() == 0,
        operation_data(OperationView::OmapGetHeader).len() == 0,
        operation_data(OperationView::Create { exclusive: flag }).len() == 0,
        operation_data(OperationView::Truncate { size: number }).len() == 0,
        operation_data(OperationView::AssertVersion(number)).len() == 0,
{
    let both = operation_data(OperationView::SetXattr { name: data, value: other });
    assert(both.take(data.len() as int) =~= data);
    assert(both.skip(data.len() as int) =~= other);
}

/// An operation has the flags that it was given last and no others, and only a listing, flagged or
/// not, decides where its request goes: by the hash of its cursor.
pub proof fn law_flags_and_routes_belong_to_their_operation(op: OperationView)
    ensures
        op matches OperationView::WithFlags { operation, flags } ==> operation_flags(op) == flags
            && operation_route(op) == operation_route(*operation),
        !(op is WithFlags) ==> operation_flags(op) == 0,
        op matches OperationView::PGNList { cursor_hash, .. } ==> operation_route(op) == Some(
            cursor_hash,
        ),
        !(op is WithFlags) && !(op is PGNList) ==> operation_route(op) is None,
{
}

// ---------------------------------------------------------------------------
// Requests
// ---------------------------------------------------------------------------

/// How much the operations write, one after the other.
pub open spec fn written_size(ops: Seq<OperationView>) -> nat
    decreases ops.len(),
{
    if ops.len() == 0 {
        0
    } else {
        written_size(ops.drop_last()) + written_by(ops.last()).len()
    }
}

proof fn lemma_written(ops: Seq<OperationView>, i: int)
    requires
        forall|k: int| 0 <= k < ops.len() ==> described(#[trigger] ops[k]),
        0 <= i < ops.len(),
    ensures
        all_data(ops).len() == written_size(ops),
        written_size(ops.take(i)) <= written_size(ops.take(i + 1)) <= written_size(ops),
        all_data(ops).subrange(
            written_size(ops.take(i)) as int,
            written_size(ops.take(i + 1)) as int,
        ) == written_by(ops[i]),
        concatenated(ops, operation_encoder()).len() == 38 * ops.len(),
        concatenated(ops, operation_encoder()).subrange(38 * i, 38 * i + 38) == operation_bytes(
            ops[i],
        ),
    decreases ops.len(),
{
    let shorter = ops.drop_last();
    let last = ops.last();
    assert(last == ops[ops.len() - 1]);
    assert(operation_data(last) =~= written_by(last));
    lemma_descriptors_size(shorter);
    lemma_written_size(shorter);
    lemma_descriptor_size(last);
    let data = all_data(ops);
    let all = concatenated(ops, operation_encoder());
    assert(data == all_data(shorter) + operation_data(last));
    assert(all == concatenated(shorter, operation_encoder()) + operation_bytes(last));
    if i < shorter.len() {
        lemma_written(shorter, i);
        assert(shorter.take(i) =~= ops.take(i));
        assert(shorter.take(i + 1) =~= ops.take(i + 1));
        let from = written_size(ops.take(i)) as int;
        let to = written_size(ops.take(i + 1)) as int;
        assert(data.subrange(from, to) =~= all_data(shorter).subrange(from, to));
        assert(all.subrange(38 * i, 38 * i + 38) =~= concatenated(
            shorter,
            operation_encoder(),
        ).subrange(38 * i, 38 * i + 38));
    } else {
        assert(ops.take(i) =~= shorter);
        assert(ops.take(i + 1) =~= ops);
        assert(data.subrange(all_data(shorter).len() as int, data.len() as int) =~= operation_data(
            last,
        ));
        assert(all.subrange(38 * i, 38 * i + 38) =~= operation_bytes(last));
    }
}

proof fn lemma_descriptor_size(op: OperationView)
    ensures
        operation_bytes(op).len() == 38,
{
}

proof fn lemma_descriptors_size(ops: Seq<OperationView>)
    ensures
        concatenated(ops, operation_encoder()).len() == 38 * ops.len(),
    decreases ops.len(),
{
    if ops.len() > 0 {
        lemma_descriptors_size(ops.drop_last());
        lemma_descriptor_size(ops.last());
    }
}

proof fn lemma_written_size(ops: Seq<OperationView>)
    requires
        forall|k: int| 0 <= k < ops.len() ==> described(#[trigger] ops[k]),
    ensures
        all_data(ops).len() == written_size(ops),
    decreases ops.len(),
{
    if ops.len() > 0 {
        let shorter = ops.drop_last();
        assert forall|k: int| 0 <= k < shorter.len() implies described(#[trigger] shorter[k]) by {
            assert(shorter[k] == ops[k]);
        }
        lemma_written_size(shorter);
        assert(ops.last() == ops[ops.len() - 1]);
        assert(operation_data(ops.last()) =~= written_by(ops.last()));
    }
}

/// What a request names before its operations reads back: the placement group and the shard, the
/// hash of the object, the epoch of the map, whether it writes, who asks and under which number, the
/// place of the object, its name, and how many operations there are.
#[verifier::rlimit(60)]
#[verifier::spinoff_prover]
pub proof fn law_request_head_reads_back(r: Request<'_>, tail: Seq<u8>)
    requires
        r.operations@.len() <= u16::MAX,
        r.locator@.len() + r.namespace@.len() + 28 <= u32::MAX,
        r.object@.len() <= u32::MAX,
    ensures
        ({
            let (group_version, group, d1) = get_versioned(input(request_head(r) + tail), 1);
            let (hash_read, d2) = get_u32(d1);
            let (epoch_read, d3) = get_u32(d2);
            let (flags_read, d4) = get_u32(d3);
            let (id_version, id, d5) = get_versioned(d4, 2);
            let (trace_read, d6) = get_raw(d5, 24);
            let (incarnation_read, d7) = get_i32(d6);
            let (time_read, d8) = get_raw(d7, 8);
            let (place_version, place, d9) = get_versioned(d8, 6);
            let (object_read, d10) = get_bytes(d9);
            let (count_read, d11) = get_u16(d10);
            let writes = exists|i: int|
                0 <= i < r.operations@.len() && mutates(#[trigger] operations_view(r.operations@)[i]);
            &&& group_version == 1
            &&& get_u8(group).0 == 1
            &&& get_u64(get_u8(group).1).0 == r.pg.pool
            &&& get_u32(get_u64(get_u8(group).1).1).0 == r.pg.seed
            &&& get_i32(get_u32(get_u64(get_u8(group).1).1).1).0 == r.pg.preferred
            &&& get_i8(get_i32(get_u32(get_u64(get_u8(group).1).1).1).1) == (
                if r.sharded {
                    r.shard
                } else {
                    -1i8
                },
                input(Seq::empty()),
            )
            &&& hash_read == r.object_hash
            &&& epoch_read == r.map_epoch
            &&& writes ==> flags_read == (0x20u32 | 0x04u32) | r.flags
            &&& !writes ==> flags_read == 0x10u32 | r.flags
            &&& id_version == 2
            &&& get_u8(id).0 == 8
            &&& get_u64(get_u8(id).1).0 == r.client_global_id
            &&& get_u64(get_u64(get_u8(id).1).1).0 == r.transaction_id
            &&& get_i32(get_u64(get_u64(get_u8(id).1).1).1) == (
                r.client_incarnation,
                input(Seq::empty()),
            )
            &&& trace_read == zeros(24)
            &&& incarnation_read == r.client_incarnation
            &&& time_read == zeros(8)
            &&& place_version == 6
            &&& get_i64(place).0 == r.pool_id
            &&& get_i32(get_i64(place).1).0 == -1
            &&& get_bytes(get_i32(get_i64(place).1).1).0 == r.locator@
            &&& get_bytes(get_bytes(get_i32(get_i64(place).1).1).1).0 == r.namespace@
            &&& get_i64(get_bytes(get_bytes(get_i32(get_i64(place).1).1).1).1) == (
                -1i64,
                input(Seq::empty()),
            )
            &&& object_read == r.object@
            &&& count_read == r.operations@.len()
            &&& d11 == input(tail)
        }),
{
    let none = Seq::<u8>::empty();
    let ops = operations_view(r.operations@);
    let shard = if r.sharded {
        r.shard
    } else {
        (-1int) as i8
    };
    let kind: u32 = if any_mutation(ops) {
        super::messages::FLAG_WRITE | super::messages::FLAG_ON_DISK
    } else {
        super::messages::FLAG_READ
    };
    let incarnation = le32(unsigned32(r.client_incarnation));
    let id = request_id_payload(r.client_global_id, r.transaction_id, r.client_incarnation);
    let place = locator_payload(r.pool_id, r.locator@, r.namespace@);
    let t10 = le16(ops.len() as u16) + tail;
    let t9 = prefixed(r.object@) + t10;
    let t8 = versioned(6, 3, place) + t9;
    let t7 = zeros(8) + t8;
    let t6 = incarnation + t7;
    let t5 = zeros(24) + t6;
    let t4 = versioned(2, 2, id) + t5;
    let t3 = le32(kind | r.flags) + t4;
    let t2 = le32(r.map_epoch) + t3;
    let t1 = le32(r.object_hash) + t2;
    assert(request_head(r) + tail =~= spg_bytes(r.pg, shard) + t1);
    law_raw(zeros(24), t6);
    law_raw(zeros(8), t8);
    law_versioned(1, 1, spg_payload(r.pg, shard), 1, t1);
    law_versioned(2, 2, id, 2, t5);
    law_versioned(6, 3, place, 6, t9);
    let last = seq![unsigned8(shard)];
    assert(last =~= last + none);
    assert(incarnation =~= incarnation + none);
    let minus = le64(unsigned64((-1int) as i64));
    assert(minus =~= minus + none);
}

pub open spec fn number_decoder() -> spec_fn(Input) -> Result<(u64, Input), WireError> {
    |d: Input| Ok(get_u64(d))
}

/// What a request names after its operations reads back: the snapshot to read, those to write under,
/// the attempt and the features of the client.
pub proof fn law_request_tail_reads_back(r: Request<'_>)
    requires
        r.write_snapshots@.len() <= u32::MAX,
    ensures
        ({
            let (snapshot_read, d1) = get_u64(input(request_tail(r)));
            let (sequence_read, d2) = get_u64(d1);
            let (count_read, d3) = get_u32(d2);
            let snapshots_read = get_many(d3, r.write_snapshots@.len(), number_decoder());
            let (retry_read, d4) = get_i32(snapshots_read->Ok_0.1);
            let (features_read, d5) = get_u64(d4);
            &&& snapshot_read == r.snapshot
            &&& sequence_read == r.snapshot_sequence
            &&& count_read == r.write_snapshots@.len()
            &&& snapshots_read is Ok
            &&& snapshots_read->Ok_0.0 == r.write_snapshots@
            &&& retry_read == r.retry
            &&& features_read == r.features
            &&& d5 == input(Seq::empty())
        }),
{
    let none = Seq::<u8>::empty();
    let features = le64(r.features);
    assert(features =~= features + none);
    assert forall|i: int, rest: Seq<u8>| 0 <= i < r.write_snapshots@.len() implies #[trigger] (
    number_decoder())(input(u64_encoder()(r.write_snapshots@[i]) + rest)) == Ok::<
        (u64, Input),
        WireError,
    >((r.write_snapshots@[i], input(rest))) by {
        crate::wire::law_u64(r.write_snapshots@[i], rest);
    }
    law_many(
        r.write_snapshots@,
        u64_encoder(),
        number_decoder(),
        le32(unsigned32(r.retry)) + features,
    );
}

/// A request is a message of its own type that holds what comes before the operations, a descriptor
/// for each of them from which it reads back, and what comes after them. What they write stands in
/// the data of the message, one after the other, and nothing else does.
#[verifier::rlimit(60)]
pub proof fn law_request_holds_its_operations(r: Request<'_>, limits: Limits, i: int)
    requires
        forall|k: int|
            0 <= k < r.operations@.len() ==> described(#[trigger] operations_view(r.operations@)[k]),
        0 <= i < r.operations@.len(),
    ensures
        request_encoding(r, limits) matches Ok(m) ==> {
            let ops = operations_view(r.operations@);
            let start = request_head(r).len() as int;
            let from = written_size(ops.take(i)) as int;
            let to = written_size(ops.take(i + 1)) as int;
            &&& m.header.message_type == 42
            &&& m.header.version == 8
            &&& m.header.compat_version == 3
            &&& m.header.transaction_id == r.transaction_id
            &&& m.middle.len() == 0
            &&& m.lengths.front == m.front.len()
            &&& m.lengths.middle == 0
            &&& m.lengths.data == m.data.len()
            &&& m.front.take(start) == request_head(r)
            &&& operation_in(
                m.front.subrange(start + 38 * i, start + 38 * i + 38),
                m.data.subrange(from, to),
            ) == Some(ops[i])
            &&& m.front.skip(start + 38 * ops.len()) == request_tail(r)
            &&& m.data.len() == written_size(ops)
        },
{
    let ops = operations_view(r.operations@);
    if let Ok(m) = request_encoding(r, limits) {
        let head = request_head(r);
        let middle = concatenated(ops, operation_encoder());
        lemma_written(ops, i);
        lemma_written_size(ops);
        let start = head.len() as int;
        assert(m.front.take(start) =~= head);
        assert(m.front.subrange(start + 38 * i, start + 38 * i + 38) =~= middle.subrange(
            38 * i,
            38 * i + 38,
        ));
        assert(m.front.skip(start + 38 * ops.len()) =~= request_tail(r));
        law_operation_reads_back(ops[i]);
    }
}

/// A request with at least one operation, and no more than a count and the limits take, is made if
/// it is not too long. Any other is refused, and so is one to no pool.
pub proof fn law_requests_are_limited(r: Request<'_>, limits: Limits)
    ensures
        request_encoding(r, limits) is Ok <==> {
            &&& r.pool_id >= 0
            &&& 1 <= r.operations@.len() <= 65535
            &&& r.operations@.len() <= limits.max_operations
            &&& request_front(r).len() + all_data(operations_view(r.operations@)).len()
                <= limits.max_bytes
            &&& limits.max_bytes > 0
        },
        request_encoding(r, limits) matches Err(error) ==> error == Error::Wire(
            WireError::LimitExceeded,
        ),
{
}

// ---------------------------------------------------------------------------
// Replies
// ---------------------------------------------------------------------------

/// What a daemon says of each operation: its code, what the request said of it, and how much data it
/// gives back.
pub open spec fn descriptors_bytes(ops: Seq<OperationResultView>, said: Seq<Seq<u8>>) -> Seq<u8>
    decreases ops.len(),
{
    if ops.len() == 0 {
        Seq::empty()
    } else {
        descriptors_bytes(ops.drop_last(), said) + (le16(ops.last().operation) + (said[ops.len()
            - 1] + le32(ops.last().data.len() as u32)))
    }
}

pub open spec fn codes_bytes(ops: Seq<OperationResultView>) -> Seq<u8>
    decreases ops.len(),
{
    if ops.len() == 0 {
        Seq::empty()
    } else {
        codes_bytes(ops.drop_last()) + le32(unsigned32(ops.last().code))
    }
}

/// What the operations give back, one after the other.
pub open spec fn reply_data(ops: Seq<OperationResultView>) -> Seq<u8>
    decreases ops.len(),
{
    if ops.len() == 0 {
        Seq::empty()
    } else {
        reply_data(ops.drop_last()) + ops.last().data
    }
}

/// Where to go instead, on the wire.
pub open spec fn redirect_bytes(r: RedirectView, legacy: Seq<u8>) -> Seq<u8> {
    versioned(
        1,
        1,
        versioned(
            6,
            3,
            le64(unsigned64(r.pool)) + (le32(unsigned32((-1int) as i32)) + (prefixed(r.locator) + (
            prefixed(r.namespace) + le64(unsigned64((-1int) as i64))))),
        ) + (prefixed(r.object) + prefixed(legacy)),
    )
}

/// What a reply of this version ends with: what the client does not use, the version of the object
/// and where to go instead.
pub open spec fn reply_end_bytes(
    version: u16,
    reply: ReplyView,
    replayed: Seq<u8>,
    legacy: Seq<u8>,
    trace: Seq<u8>,
) -> Seq<u8> {
    let traced = if version >= 8 {
        trace
    } else {
        Seq::empty()
    };
    replayed + (le64(reply.version) + if version >= 7 {
        match reply.redirect {
            Some(redirect) => seq![1u8] + (redirect_bytes(redirect, legacy) + traced),
            None => seq![0u8] + traced,
        }
    } else {
        Seq::empty()
    })
}

/// The front of a reply: the object and its placement group, flags, the result, the epoch, the
/// operations, the attempt, the codes, and the end.
pub open spec fn reply_front(
    reply: ReplyView,
    said: Seq<Seq<u8>>,
    bad_version: Seq<u8>,
    end: Seq<u8>,
) -> Seq<u8> {
    prefixed(reply.object) + (seq![1u8] + (le64(reply.pg.pool) + (le32(reply.pg.seed) + (le32(
        unsigned32(reply.pg.preferred),
    ) + (le64(unsigned64(reply.flags)) + (le32(unsigned32(reply.result)) + (bad_version + (le32(
        reply.map_epoch,
    ) + (le32(reply.operations.len() as u32) + (descriptors_bytes(reply.operations, said) + (le32(
        unsigned32(reply.retry),
    ) + (codes_bytes(reply.operations) + end))))))))))))
}

pub open spec fn descriptors_of(ops: Seq<OperationResultView>) -> Seq<(u16, u32)> {
    Seq::new(ops.len(), |i: int| (ops[i].operation, ops[i].data.len() as u32))
}

pub open spec fn codes_of(ops: Seq<OperationResultView>) -> Seq<i32> {
    Seq::new(ops.len(), |i: int| ops[i].code)
}

proof fn lemma_descriptors(ops: Seq<OperationResultView>, said: Seq<Seq<u8>>, tail: Seq<u8>)
    requires
        said.len() >= ops.len(),
        forall|i: int| 0 <= i < ops.len() ==> (#[trigger] said[i]).len() == 32,
    ensures
        descriptors_bytes(ops, said).len() == 38 * ops.len(),
        get_many(input(descriptors_bytes(ops, said) + tail), ops.len(), descriptor_decoder())
            == Ok::<(Seq<(u16, u32)>, Input), Error>((descriptors_of(ops), input(tail))),
    decreases ops.len(),
{
    let all = descriptors_bytes(ops, said);
    if ops.len() == 0 {
        assert(all + tail =~= tail);
        assert(descriptors_of(ops) =~= Seq::empty());
    } else {
        let shorter = ops.drop_last();
        let last = ops.last();
        let pad = said[ops.len() - 1];
        let size = le32(last.data.len() as u32);
        let t2 = size + tail;
        let t1 = pad + t2;
        let t0 = le16(last.operation) + t1;
        assert(pad.len() == 32);
        lemma_descriptors(shorter, said, t0);
        assert(all + tail =~= descriptors_bytes(shorter, said) + t0);
        law_raw(pad, t2);
        assert(descriptors_of(ops) =~= descriptors_of(shorter).push(
            (last.operation, last.data.len() as u32),
        ));
    }
}

proof fn lemma_codes(ops: Seq<OperationResultView>, tail: Seq<u8>)
    ensures
        get_many(input(codes_bytes(ops) + tail), ops.len(), code_decoder()) == Ok::<
            (Seq<i32>, Input),
            Error,
        >((codes_of(ops), input(tail))),
    decreases ops.len(),
{
    let all = codes_bytes(ops);
    if ops.len() == 0 {
        assert(all + tail =~= tail);
        assert(codes_of(ops) =~= Seq::empty());
    } else {
        let shorter = ops.drop_last();
        let code = le32(unsigned32(ops.last().code));
        lemma_codes(shorter, code + tail);
        assert(all + tail =~= codes_bytes(shorter) + (code + tail));
        assert(codes_of(ops) =~= codes_of(shorter).push(ops.last().code));
    }
}

pub open spec fn data_of(ops: Seq<OperationResultView>) -> Seq<Seq<u8>> {
    Seq::new(ops.len(), |i: int| ops[i].data)
}

proof fn lemma_reply_pieces(ops: Seq<OperationResultView>, tail: Seq<u8>)
    requires
        (reply_data(ops) + tail).len() <= u32::MAX,
    ensures
        pieces(descriptors_of(ops), reply_data(ops) + tail) == Ok::<(Seq<Seq<u8>>, nat), Error>(
            (data_of(ops), reply_data(ops).len()),
        ),
    decreases ops.len(),
{
    let all = reply_data(ops) + tail;
    if ops.len() == 0 {
        assert(data_of(ops) =~= Seq::empty());
    } else {
        let shorter = ops.drop_last();
        let last = ops.last();
        assert(all =~= reply_data(shorter) + (last.data + tail));
        lemma_reply_pieces(shorter, last.data + tail);
        assert(descriptors_of(ops).drop_last() =~= descriptors_of(shorter));
        let offset = reply_data(shorter).len() as int;
        assert(all.subrange(offset, offset + last.data.len()) =~= last.data);
        assert(data_of(ops) =~= data_of(shorter).push(last.data));
    }
}

#[verifier::rlimit(40)]
proof fn lemma_redirect(r: RedirectView, legacy: Seq<u8>, tail: Seq<u8>)
    requires
        redirect_bytes(r, legacy).len() <= u32::MAX,
    ensures
        get_redirect(input(redirect_bytes(r, legacy) + tail)) == Ok::<(RedirectView, Input), Error>(
            (r, input(tail)),
        ),
{
    reveal(get_redirect);
    reveal(redirect_place);
    let none = Seq::<u8>::empty();
    let minus = le64(unsigned64((-1int) as i64));
    let place = le64(unsigned64(r.pool)) + (le32(unsigned32((-1int) as i32)) + (prefixed(r.locator)
        + (prefixed(r.namespace) + minus)));
    let t2 = prefixed(legacy);
    let t1 = prefixed(r.object) + t2;
    let payload = versioned(6, 3, place) + t1;
    assert(minus =~= minus + none);
    assert(legacy =~= legacy + none);
    law_versioned(1, 1, payload, 1, tail);
    law_versioned(6, 3, place, 6, t1);
    law_raw(legacy, none);
    assert(get_i64(input(minus)) == (-1i64, input(none)));
}

#[verifier::rlimit(40)]
proof fn lemma_reply_end(
    version: u16,
    reply: ReplyView,
    replayed: Seq<u8>,
    legacy: Seq<u8>,
    trace: Seq<u8>,
)
    requires
        version >= 4,
        version != 6,
        replayed.len() == 12,
        trace.len() == 24,
        reply.redirect is Some ==> version >= 7,
        reply_end_bytes(version, reply, replayed, legacy, trace).len() <= u32::MAX,
    ensures
        reply_end(version, input(reply_end_bytes(version, reply, replayed, legacy, trace))) == Ok::<
            (u64, Option<RedirectView>),
            Error,
        >((reply.version, reply.redirect)),
{
    reveal(reply_end);
    let none = Seq::<u8>::empty();
    let traced = if version >= 8 {
        trace
    } else {
        none
    };
    let rest = if version >= 7 {
        match reply.redirect {
            Some(redirect) => seq![1u8] + (redirect_bytes(redirect, legacy) + traced),
            None => seq![0u8] + traced,
        }
    } else {
        none
    };
    law_raw(replayed, le64(reply.version) + rest);
    assert(trace =~= trace + none);
    law_raw(trace, none);
    if version >= 7 {
        if let Some(redirect) = reply.redirect {
            assert(bool_byte(true) =~= seq![1u8]);
            crate::wire::law_bool(true, redirect_bytes(redirect, legacy) + traced);
            lemma_redirect(redirect, legacy, traced);
        } else {
            assert(bool_byte(false) =~= seq![0u8]);
            crate::wire::law_bool(false, traced);
        }
    }
}

/// A reply is read as it was written: what it is about, its result and epoch, where to go instead,
/// and of each operation its own code, result and data.
#[verifier::rlimit(80)]
#[verifier::spinoff_prover]
pub proof fn law_reply_reads_back(
    m: MessageView,
    reply: ReplyView,
    said: Seq<Seq<u8>>,
    bad_version: Seq<u8>,
    replayed: Seq<u8>,
    legacy: Seq<u8>,
    trace: Seq<u8>,
    limits: Limits,
)
    requires
        m.header.message_type == 43,
        m.header.version >= 4,
        m.header.version != 6,
        m.header.compat_version <= 8,
        said.len() == reply.operations.len(),
        forall|i: int| 0 <= i < said.len() ==> (#[trigger] said[i]).len() == 32,
        bad_version.len() == 12,
        replayed.len() == 12,
        trace.len() == 24,
        reply.redirect is Some ==> m.header.version >= 7,
        m.front == reply_front(
            reply,
            said,
            bad_version,
            reply_end_bytes(m.header.version, reply, replayed, legacy, trace),
        ),
        m.data == reply_data(reply.operations),
        m.front.len() + m.middle.len() + m.data.len() <= limits.max_bytes,
        0 < limits.max_operations,
        reply.operations.len() <= limits.max_operations,
    ensures
        reply_decoding(m, limits) == Ok::<ReplyView, Error>(reply),
{
    reveal(reply_decoding);
    reveal(get_pg);
    reveal(get_results);
    let ops = reply.operations;
    let end = reply_end_bytes(m.header.version, reply, replayed, legacy, trace);
    let t12 = codes_bytes(ops) + end;
    let t11 = le32(unsigned32(reply.retry)) + t12;
    let t10 = descriptors_bytes(ops, said) + t11;
    let t9 = le32(ops.len() as u32) + t10;
    let t8 = le32(reply.map_epoch) + t9;
    let t7 = bad_version + t8;
    let t6 = le32(unsigned32(reply.result)) + t7;
    let t5 = le64(unsigned64(reply.flags)) + t6;
    let t4 = le32(unsigned32(reply.pg.preferred)) + t5;
    let t3 = le32(reply.pg.seed) + t4;
    let t2 = le64(reply.pg.pool) + t3;
    let t1 = seq![1u8] + t2;
    assert(m.front == prefixed(reply.object) + t1);
    assert(end.len() <= m.front.len());
    assert(limited_input(m.front, limits.max_bytes as nat) == input(m.front));
    assert(get_bytes(input(m.front)) == (reply.object, input(t1)));
    assert(get_pg(input(t1)) == Ok::<(PG, Input), Error>((reply.pg, input(t5))));
    law_raw(bad_version, t8);
    lemma_descriptors(ops, said, t11);
    lemma_codes(ops, end);
    assert(get_results(input(t10), ops.len()) == (
        descriptors_of(ops),
        reply.retry,
        codes_of(ops),
        input(end),
    ));
    lemma_reply_end(m.header.version, reply, replayed, legacy, trace);
    assert(reply_data(ops) =~= reply_data(ops) + Seq::<u8>::empty());
    lemma_reply_pieces(ops, Seq::<u8>::empty());
    assert(results_of(descriptors_of(ops), codes_of(ops), data_of(ops)) =~= ops);
}

} // verus!
