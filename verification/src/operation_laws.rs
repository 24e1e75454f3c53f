//! What the steps of a compound operation put into it.

use crate::operation::{
    call_view, compare_payload, flaggable, flagged, list_payload, omap_view, read_step,
    read_view, valid_call, valid_name, write_step, write_view, BuildStep, ReadAction,
    WriteAction, WriteOpView,
};
use crate::osd::messages::{operation_data, operation_flags, OperationView};
use crate::osd::metadata::bare;
use crate::types::OmapEntry;
use crate::wire::{
    get_bytes, get_i32, get_u32, get_u64, input, law_bytes, le32, prefixed, unsigned32,
};
use vstd::prelude::*;

verus! {

broadcast use {crate::wire::group_integers, crate::wire::group_reads};

/// A call brings its class, its method and its input, one after the other, and says how long each
/// is.
pub proof fn law_call_brings_its_input(
    class: Seq<u8>,
    method: Seq<u8>,
    input: Seq<u8>,
    mutation: bool,
)
    requires
        valid_call(class, method, input),
    ensures
        ({
            let op = call_view(class, method, input, mutation);
            let c = class.len() as int;
            let m = method.len() as int;
            &&& op is Call
            &&& op->class_length == c
            &&& op->method_length == m
            &&& op->input_length == input.len()
            &&& op->mutation == mutation
            &&& op->Call_data.len() == c + m + input.len()
            &&& op->Call_data.subrange(0, c) == class
            &&& op->Call_data.subrange(c, c + m) == method
            &&& op->Call_data.subrange(c + m, c + m + input.len()) == input
        }),
{
    let op = call_view(class, method, input, mutation);
    let c = class.len() as int;
    let m = method.len() as int;
    assert(op->Call_data.subrange(0, c) =~= class);
    assert(op->Call_data.subrange(c, c + m) =~= method);
    assert(op->Call_data.subrange(c + m, c + m + input.len()) =~= input);
}

/// Names are not empty and have no byte of zero. Those of a class and of a method are also short, and
/// a call as a whole is at most 64 mebibytes.
pub proof fn law_names_are_checked(name: Seq<u8>, class: Seq<u8>, method: Seq<u8>, input: Seq<u8>)
    ensures
        valid_name(name) <==> 0 < name.len() <= 0xffff_ffff && forall|i: int|
            0 <= i < name.len() ==> #[trigger] name[i] != 0,
        valid_call(class, method, input) <==> {
            &&& 0 < class.len() <= 255
            &&& 0 < method.len() <= 255
            &&& forall|i: int| 0 <= i < class.len() ==> #[trigger] class[i] != 0
            &&& forall|i: int| 0 <= i < method.len() ==> #[trigger] method[i] != 0
            &&& class.len() + method.len() + input.len() <= 0x400_0000
        },
{
}

/// A listing of keys starts after the key that is given and goes no further than the limit.
pub proof fn law_list_payload_reads_back(after: Seq<u8>, limit: u64)
    requires
        after.len() <= u32::MAX,
    ensures
        get_bytes(input(list_payload(after, limit))).0 == after,
        get_u64(get_bytes(input(list_payload(after, limit))).1).0 == limit,
        get_bytes(get_u64(get_bytes(input(list_payload(after, limit))).1).1) == (
            Seq::<u8>::empty(),
            input(Seq::empty()),
        ),
{
    let none = Seq::<u8>::empty();
    assert(prefixed(none) =~= prefixed(none) + none);
    law_bytes(none, none);
}

/// A comparison is one, of the value that is given with that of the key that is given, for equality.
pub proof fn law_compare_payload_reads_back(key: Seq<u8>, value: Seq<u8>)
    requires
        key.len() <= u32::MAX,
        value.len() <= u32::MAX,
    ensures
        ({
            let (count, d1) = get_u32(input(compare_payload(key, value)));
            let (key_read, d2) = get_bytes(d1);
            let (value_read, d3) = get_bytes(d2);
            &&& count == 1
            &&& key_read == key
            &&& value_read == value
            &&& get_i32(d3) == (1i32, input(Seq::empty()))
        }),
{
    let last = le32(unsigned32(1));
    assert(last =~= last + Seq::<u8>::empty());
}

/// A step is added at the end, as it is, unless there are 16 already; with a change, also unless the
/// data would be more than 64 mebibytes.
pub proof fn law_steps_are_added_last(
    ops: Seq<OperationView>,
    before: WriteOpView,
    operation: OperationView,
)
    requires
        ops.len() <= 16,
        before.operations.len() <= 16,
    ensures
        read_step(ops, BuildStep::Append(operation)) is Some <==> ops.len() < 16,
        read_step(ops, BuildStep::Append(operation)) matches Some(after) ==> after.len()
            == ops.len() + 1 && after.last() == operation && after.drop_last() == ops,
        write_step(before, BuildStep::Append(operation)) is Some <==> before.operations.len() < 16
            && before.retained + operation_data(operation).len() <= 0x400_0000,
        write_step(before, BuildStep::Append(operation)) matches Some(after)
            ==> after.operations.len() == before.operations.len() + 1 && after.operations.last()
            == operation && after.operations.drop_last() == before.operations && after.retained
            == before.retained + operation_data(operation).len(),
{
    assert(ops.push(operation).drop_last() =~= ops);
    assert(before.operations.push(operation).drop_last() =~= before.operations);
}

/// Flags are set on a step that there is, and only the one that lets it fail. The step stays what it
/// is, and no other step changes.
pub proof fn law_flags_are_set_on_one_step(ops: Seq<OperationView>, index: int, flags: u32, i: int)
    requires
        0 <= index,
        0 <= i < ops.len(),
    ensures
        flaggable(ops, index, flags) <==> index < ops.len() && flags & !2u32 == 0,
        flaggable(ops, index, flags) ==> {
            let after = flagged(ops, index, flags);
            &&& after.len() == ops.len()
            &&& i != index ==> after[i] == ops[i]
            &&& operation_flags(after[index]) == flags
            &&& after[index] is WithFlags
            &&& !(ops[index] is WithFlags) ==> *after[index]->operation == ops[index]
        },
{
}

/// Keys and values are taken as they are given.
pub proof fn law_entries_are_as_given(values: Seq<OmapEntry>, keys: Seq<Vec<u8>>, i: int)
    ensures
        omap_view(values).len() == values.len(),
        0 <= i < values.len() ==> omap_view(values)[i].key == values[i].key@
            && omap_view(values)[i].value == values[i].value@,
        bare(keys).len() == keys.len(),
        0 <= i < keys.len() ==> bare(keys)[i].key == keys[i]@ && bare(keys)[i].value.len() == 0,
{
}

/// An action of a compound read is the operation that it is named after. An object exists if its
/// state can be had.
pub proof fn law_read_action_is_its_operation(x: ReadAction)
    ensures
        x matches ReadAction::Read { offset, length } ==> read_view(x) == (OperationView::Read {
            offset,
            length,
        }),
        x is Stat || x is AssertExists ==> read_view(x) is Stat,
        x matches ReadAction::AssertVersion(version) ==> read_view(x)
            == OperationView::AssertVersion(version),
        x matches ReadAction::GetXattr(name) ==> read_view(x) == OperationView::GetXattr(name@),
        x is GetOmapHeader ==> read_view(x) is OmapGetHeader,
        x matches ReadAction::ListOmap(payload) ==> read_view(x) == OperationView::OmapGetValues(
            payload@,
        ),
        x matches ReadAction::Exec(operation) ==> read_view(x) == operation@,
        x matches ReadAction::WithFlags { action, flags } ==> (
        read_view(x) matches OperationView::WithFlags { operation, flags: given }
            && *operation == read_view(*action) && given == flags),
{
}

/// An action of a compound write is the operation that it is named after.
pub proof fn law_write_action_is_its_operation(x: WriteAction)
    ensures
        x matches WriteAction::Create { exclusive } ==> write_view(x) == (OperationView::Create {
            exclusive,
        }),
        x matches WriteAction::Write { offset, data } ==> write_view(x) == (OperationView::Write {
            offset,
            data: data@,
        }),
        x matches WriteAction::WriteFull(data) ==> write_view(x) == OperationView::WriteFull(data@),
        x matches WriteAction::Append(data) ==> write_view(x) == OperationView::Append(data@),
        x matches WriteAction::Truncate(size) ==> write_view(x) == (OperationView::Truncate {
            size,
        }),
        x matches WriteAction::Zero { offset, length } ==> write_view(x) == (OperationView::Zero {
            offset,
            length,
        }),
        x is Remove ==> write_view(x) is Remove,
        x matches WriteAction::AssertVersion(version) ==> write_view(x)
            == OperationView::AssertVersion(version),
        x matches WriteAction::CompareExtent { offset, data } ==> write_view(x) == (
        OperationView::CompareExtent { offset, data: data@ }),
        x matches WriteAction::SetXattr { name, value } ==> write_view(x) == (
        OperationView::SetXattr { name: name@, value: value@ }),
        x matches WriteAction::RemoveXattr(name) ==> write_view(x) == OperationView::RemoveXattr(
            name@,
        ),
        x matches WriteAction::SetOmap(payload) ==> write_view(x) == OperationView::OmapSetValues(
            payload@,
        ),
        x matches WriteAction::RemoveOmap(payload) ==> write_view(x)
            == OperationView::OmapRemoveKeys(payload@),
        x matches WriteAction::RemoveOmapRange(payload) ==> write_view(x)
            == OperationView::OmapRemoveRange(payload@),
        x is ClearOmap ==> write_view(x) is OmapClear,
        x matches WriteAction::SetOmapHeader(value) ==> write_view(x)
            == OperationView::OmapSetHeader(value@),
        x matches WriteAction::CompareOmap(payload) ==> write_view(x) == OperationView::OmapCompare(
            payload@,
        ),
        x matches WriteAction::Exec(operation) ==> write_view(x) == operation@,
        x matches WriteAction::WithFlags { action, flags } ==> (
        write_view(x) matches OperationView::WithFlags { operation, flags: given }
            && *operation == write_view(*action) && given == flags),
{
}

} // verus!
