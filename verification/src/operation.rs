//! Builders of compound operations on one object.

use crate::osd::messages::{
    all_data, operation_data, operations_view, Operation, OperationView, OP_FLAG_FAIL_OK,
};
use crate::osd::metadata::{
    bare, distinct_keys, encode_compare, encode_keys, encode_list_request, encode_map, encode_range,
    entries_view, keys_encoding, law_order_of_entries_does_not_matter, map_encoding, Entry,
    EntryView,
};
use crate::types::{Error, OmapEntry, SubOperationFlags};
use crate::wire::{append_bytes, bytes_less, le32, le64, prefixed, unsigned32};
use vstd::prelude::*;
use vstd::slice::slice_to_vec;

verus! {

/// How many operations a compound operation holds.
pub const MAX_SUB_OPERATIONS: usize = 16;

/// How many bytes a compound operation holds.
pub const MAX_OPERATION_BYTES: usize = 64 * 1024 * 1024;

#[derive(Debug, PartialEq, Eq)]
pub enum ReadAction {
    Read { offset: u64, length: u64 },
    Stat,
    AssertExists,
    AssertVersion(u64),
    GetXattr(Vec<u8>),
    GetOmapHeader,
    ListOmap(Vec<u8>),
    Exec(Operation),
    WithFlags { action: Box<ReadAction>, flags: u32 },
}

/// The operation that an action stands for. An object exists if it has a state.
pub open spec fn read_view(action: ReadAction) -> OperationView
    decreases action,
{
    match action {
        ReadAction::Read { offset, length } => OperationView::Read { offset, length },
        ReadAction::Stat => OperationView::Stat,
        ReadAction::AssertExists => OperationView::Stat,
        ReadAction::AssertVersion(version) => OperationView::AssertVersion(version),
        ReadAction::GetXattr(name) => OperationView::GetXattr(name@),
        ReadAction::GetOmapHeader => OperationView::OmapGetHeader,
        ReadAction::ListOmap(payload) => OperationView::OmapGetValues(payload@),
        ReadAction::Exec(operation) => operation@,
        ReadAction::WithFlags { action, flags } => OperationView::WithFlags {
            operation: Box::new(read_view(*action)),
            flags,
        },
    }
}

/// The operation of an action without the flags that it was given.
pub open spec fn plain_read(action: ReadAction) -> OperationView {
    match action {
        ReadAction::WithFlags { action, .. } => read_view(*action),
        _ => read_view(action),
    }
}

/// An operation without the flags that it was given.
pub open spec fn plain(operation: OperationView) -> OperationView {
    match operation {
        OperationView::WithFlags { operation, .. } => *operation,
        _ => operation,
    }
}

/// Operations of which the one at `index` is given flags, in place of those that it had.
pub open spec fn flagged(operations: Seq<OperationView>, index: int, flags: u32) -> Seq<
    OperationView,
> {
    operations.update(
        index,
        OperationView::WithFlags { operation: Box::new(plain(operations[index])), flags },
    )
}

/// Whether the operation at `index` can be given flags: there is one, and the flags are known.
pub open spec fn flaggable(operations: Seq<OperationView>, index: int, flags: u32) -> bool {
    index < operations.len() && flags & !OP_FLAG_FAIL_OK == 0
}

/// A bounded, single-use atomic read-operation builder.
#[derive(Debug)]
pub struct ReadOp {
    pub actions: Vec<ReadAction>,
}

/// The operations that a builder has collected.
impl View for ReadOp {
    type V = Seq<OperationView>;

    open spec fn view(&self) -> Seq<OperationView> {
        Seq::new(self.actions@.len(), |i: int| read_view(self.actions@[i]))
    }
}

impl ReadOp {
    /// The builder is within its bound, and flags are kept around an operation, never around flags.
    pub open spec fn wf(&self) -> bool {
        &&& self@.len() <= MAX_SUB_OPERATIONS
        &&& forall|i: int|
            0 <= i < self.actions@.len() ==> !(plain_read(#[trigger] self.actions@[i]) is WithFlags)
    }
}

pub open spec fn has_zero(name: Seq<u8>) -> bool {
    exists|i: int| 0 <= i < name.len() && #[trigger] name[i] == 0
}

/// A name is not empty and has no zero byte.
pub open spec fn valid_name(name: Seq<u8>) -> bool {
    name.len() > 0 && !has_zero(name) && name.len() <= u32::MAX
}

/// Whether a method of a class can be called with an input of this length.
pub open spec fn valid_call(class: Seq<u8>, method: Seq<u8>, input: Seq<u8>) -> bool {
    &&& class.len() > 0
    &&& method.len() > 0
    &&& !has_zero(class)
    &&& !has_zero(method)
    &&& class.len() <= u8::MAX
    &&& method.len() <= u8::MAX
    &&& input.len() <= u32::MAX
    &&& class.len() + method.len() + input.len() <= MAX_OPERATION_BYTES
}

pub open spec fn call_view(
    class: Seq<u8>,
    method: Seq<u8>,
    input: Seq<u8>,
    mutation: bool,
) -> OperationView {
    OperationView::Call {
        class_length: class.len() as u8,
        method_length: method.len() as u8,
        input_length: input.len() as u32,
        data: class + method + input,
        mutation,
    }
}

/// A step of building: an operation is appended, or the one at an index is given flags.
pub enum BuildStep {
    Append(OperationView),
    Flag { index: int, flags: u32 },
}

/// The operations of a builder of reads after a step, unless the builder refuses it.
pub open spec fn read_step(operations: Seq<OperationView>, step: BuildStep) -> Option<
    Seq<OperationView>,
> {
    match step {
        BuildStep::Append(operation) => if operations.len() == MAX_SUB_OPERATIONS {
            None
        } else {
            Some(operations.push(operation))
        },
        BuildStep::Flag { index, flags } => if flaggable(operations, index, flags) {
            Some(flagged(operations, index, flags))
        } else {
            None
        },
    }
}

/// What a step of a builder yields: the builder with one more operation, the complaint of the
/// step where its arguments are not valid, or that of the builder where it is full.
pub open spec fn grown(
    r: Result<ReadOp, Error>,
    before: ReadOp,
    valid: bool,
    step: &str,
    operation: OperationView,
) -> bool {
    match r {
        Ok(op) => {
            &&& valid
            &&& read_step(before@, BuildStep::Append(operation)) == Some(op@)
            &&& before.wf() ==> op.wf()
        },
        Err(error) => if !valid {
            error.operation@ == step@
        } else {
            read_step(before@, BuildStep::Append(operation)) is None && error.operation@
                == "ReadOp"@
        },
    }
}

fn contains_zero(name: &[u8]) -> (r: bool)
    ensures
        r == has_zero(name@),
{
    let mut i: usize = 0;
    while i < name.len()
        invariant
            i <= name@.len(),
            forall|j: int| 0 <= j < i ==> #[trigger] name@[j] != 0,
        decreases name@.len() - i,
    {
        if name[i] == 0 {
            return true;
        }
        i = i + 1;
    }
    false
}

fn valid_xattr_name(name: &[u8], operation: &'static str) -> (r: Result<Vec<u8>, Error>)
    ensures
        match r {
            Ok(copy) => valid_name(name@) && copy@ == name@,
            Err(error) => !valid_name(name@) && error.operation@ == operation@,
        },
{
    if name.len() == 0 || contains_zero(name) || name.len() as u64 > u32::MAX as u64 {
        return Err(Error::invalid(operation));
    }
    Ok(slice_to_vec(name))
}

fn class_operation(
    class: &[u8],
    method: &[u8],
    input: &[u8],
    mutation: bool,
    operation: &'static str,
) -> (r: Result<Operation, Error>)
    ensures
        match r {
            Ok(call) => valid_call(class@, method@, input@) && call@ == call_view(
                class@,
                method@,
                input@,
                mutation,
            ),
            Err(error) => !valid_call(class@, method@, input@) && error.operation@
                == operation@,
        },
{
    if class.len() == 0 || method.len() == 0 || contains_zero(class) || contains_zero(method)
        || class.len() > u8::MAX as usize || method.len() > u8::MAX as usize || input.len() as u64
        > u32::MAX as u64 || input.len() as u64 + class.len() as u64 + method.len() as u64
        > MAX_OPERATION_BYTES as u64 {
        return Err(Error::invalid(operation));
    }
    let mut data: Vec<u8> = Vec::new();
    append_bytes(&mut data, class);
    append_bytes(&mut data, method);
    append_bytes(&mut data, input);
    assert(data@ =~= class@ + method@ + input@);
    Ok(
        Operation::Call {
            class_length: class.len() as u8,
            method_length: method.len() as u8,
            input_length: input.len() as u32,
            data,
            mutation,
        },
    )
}

fn read_operation(action: ReadAction) -> (r: Operation)
    ensures
        r@ == read_view(action),
    decreases action,
{
    match action {
        ReadAction::Read { offset, length } => Operation::Read { offset, length },
        ReadAction::Stat => Operation::Stat,
        ReadAction::AssertExists => Operation::Stat,
        ReadAction::AssertVersion(version) => Operation::AssertVersion(version),
        ReadAction::GetXattr(name) => Operation::GetXattr(name),
        ReadAction::GetOmapHeader => Operation::OmapGetHeader,
        ReadAction::ListOmap(payload) => Operation::OmapGetValues(payload),
        ReadAction::Exec(operation) => operation,
        ReadAction::WithFlags { action, flags } => {
            let operation = read_operation(*action);
            Operation::WithFlags { operation: Box::new(operation), flags }
        },
    }
}

/// The payload that asks for a page of the map of an object.
pub open spec fn list_payload(after: Seq<u8>, limit: u64) -> Seq<u8> {
    prefixed(after) + (le64(limit) + prefixed(Seq::empty()))
}

impl Default for ReadOp {
    fn default() -> (r: Self)
        ensures
            r@ == Seq::<OperationView>::empty(),
            r.wf(),
    {
        ReadOp::new()
    }
}

impl ReadOp {
    /// Creates an empty operation.
    #[must_use]
    pub fn new() -> (r: Self)
        ensures
            r@ == Seq::<OperationView>::empty(),
            r.wf(),
    {
        ReadOp { actions: Vec::new() }
    }

    fn push(self, action: ReadAction) -> (r: Result<Self, Error>)
        requires
            !(plain_read(action) is WithFlags),
        ensures
            grown(r, self, true, "ReadOp", read_view(action)),
    {
        if self.actions.len() == MAX_SUB_OPERATIONS {
            return Err(Error::invalid("ReadOp"));
        }
        let ghost before = self@;
        let mut actions = self.actions;
        actions.push(action);
        let r = ReadOp { actions };
        assert(r@ =~= before.push(read_view(action)));
        Ok(r)
    }

    /// Appends a bounded read.
    ///
    /// # Errors
    ///
    /// Returns an invalid-argument error on range overflow or excessive length.
    pub fn read(self, offset: u64, length: u64) -> (r: Result<Self, Error>)
        ensures
            grown(
                r,
                self,
                offset + length <= u64::MAX && length <= MAX_OPERATION_BYTES,
                "ReadOp::read",
                OperationView::Read { offset, length },
            ),
    {
        if offset > u64::MAX - length || length > MAX_OPERATION_BYTES as u64 {
            return Err(Error::invalid("ReadOp::read"));
        }
        self.push(ReadAction::Read { offset, length })
    }

    /// Appends a stat operation.
    ///
    /// # Errors
    ///
    /// Returns an invalid-argument error when the sub-operation limit is reached.
    pub fn stat(self) -> (r: Result<Self, Error>)
        ensures
            grown(r, self, true, "ReadOp", OperationView::Stat),
    {
        self.push(ReadAction::Stat)
    }

    /// Requires the object to exist.
    ///
    /// # Errors
    ///
    /// Returns an invalid-argument error when the sub-operation limit is reached.
    pub fn assert_exists(self) -> (r: Result<Self, Error>)
        ensures
            grown(r, self, true, "ReadOp", OperationView::Stat),
    {
        self.push(ReadAction::AssertExists)
    }

    /// Requires an exact object version.
    ///
    /// # Errors
    ///
    /// Returns an invalid-argument error when the sub-operation limit is reached.
    pub fn assert_version(self, version: u64) -> (r: Result<Self, Error>)
        ensures
            grown(r, self, true, "ReadOp", OperationView::AssertVersion(version)),
    {
        self.push(ReadAction::AssertVersion(version))
    }

    /// Appends an extended-attribute read.
    ///
    /// # Errors
    ///
    /// Returns an invalid-argument error for an empty or NUL-containing name or operation overflow.
    pub fn get_xattr(self, name: &[u8]) -> (r: Result<Self, Error>)
        ensures
            grown(
                r,
                self,
                valid_name(name@),
                "ReadOp::get_xattr",
                OperationView::GetXattr(name@),
            ),
    {
        let name = valid_xattr_name(name, "ReadOp::get_xattr")?;
        self.push(ReadAction::GetXattr(name))
    }

    /// Appends an OMAP-header read.
    ///
    /// # Errors
    ///
    /// Returns an invalid-argument error when the operation bound is reached.
    pub fn get_omap_header(self) -> (r: Result<Self, Error>)
        ensures
            grown(r, self, true, "ReadOp", OperationView::OmapGetHeader),
    {
        self.push(ReadAction::GetOmapHeader)
    }

    /// Appends a bounded OMAP page read after `after`.
    ///
    /// # Errors
    ///
    /// Returns an invalid-argument error for a zero limit, oversized payload, or operation overflow.
    pub fn list_omap(self, after: &[u8], limit: u64) -> (r: Result<Self, Error>)
        ensures
            grown(
                r,
                self,
                limit != 0 && list_payload(after@, limit).len() <= MAX_OPERATION_BYTES,
                "ReadOp::list_omap",
                OperationView::OmapGetValues(list_payload(after@, limit)),
            ),
    {
        if limit == 0 {
            return Err(Error::invalid("ReadOp::list_omap"));
        }
        let payload = match encode_list_request(after, limit, MAX_OPERATION_BYTES) {
            Ok(payload) => payload,
            Err(_) => {
                return Err(Error::invalid("ReadOp::list_omap"));
            },
        };
        self.push(ReadAction::ListOmap(payload))
    }

    /// Appends a read-class method call with copied input.
    ///
    /// # Errors
    ///
    /// Returns an invalid-argument error for invalid names, retained-byte limits, or operation overflow.
    pub fn exec(self, class: &[u8], method: &[u8], input: &[u8]) -> (r: Result<Self, Error>)
        ensures
            grown(
                r,
                self,
                valid_call(class@, method@, input@),
                "ReadOp::exec",
                call_view(class@, method@, input@, false),
            ),
    {
        let operation = class_operation(class, method, input, false, "ReadOp::exec")?;
        self.push(ReadAction::Exec(operation))
    }

    /// Applies flags to an existing sub-operation by its zero-based result index.
    ///
    /// # Errors
    ///
    /// Returns an invalid-argument error for an unknown index or unsupported flag.
    pub fn set_flags(self, index: usize, flags: SubOperationFlags) -> (r: Result<Self, Error>)
        ensures
            match r {
                Ok(op) => flaggable(self@, index as int, flags.bits) && (self.wf() ==> op.wf()
                    && read_step(
                    self@,
                    BuildStep::Flag { index: index as int, flags: flags.bits },
                ) == Some(op@)),
                Err(error) => !flaggable(self@, index as int, flags.bits) && error.operation@
                    == "ReadOp::set_flags"@,
            },
    {
        if index >= self.actions.len() || flags.bits() & !OP_FLAG_FAIL_OK != 0 {
            return Err(Error::invalid("ReadOp::set_flags"));
        }
        let ghost before = self;
        let mut actions = self.actions;
        let action = match actions.remove(index) {
            ReadAction::WithFlags { action, .. } => *action,
            action => action,
        };
        let wrapped = ReadAction::WithFlags { action: Box::new(action), flags: flags.bits() };
        actions.insert(index, wrapped);
        let r = ReadOp { actions };
        proof {
            assert(r@ =~= before@.update(index as int, read_view(wrapped)));
            if before.wf() {
                assert(!(plain_read(before.actions@[index as int]) is WithFlags));
                assert forall|i: int| 0 <= i < r.actions@.len() implies !(plain_read(
                    #[trigger] r.actions@[i],
                ) is WithFlags) by {
                    if i != index {
                        assert(r.actions@[i] == before.actions@[i]);
                    }
                }
                assert(r@ =~= flagged(before@, index as int, flags.bits));
            }
        }
        Ok(r)
    }

    /// The operations, in the order in which they were appended.
    pub fn into_operations(self) -> (r: Result<Vec<Operation>, Error>)
        ensures
            match r {
                Ok(operations) => self@.len() > 0 && operations_view(operations@) == self@,
                Err(error) => self@.len() == 0 && error.operation@ == "ReadOp"@,
            },
    {
        if self.actions.len() == 0 {
            return Err(Error::invalid("ReadOp"));
        }
        let ghost all = self@;
        let mut actions = self.actions;
        let mut reversed: Vec<Operation> = Vec::new();
        while actions.len() > 0
            invariant
                actions@.len() + reversed@.len() == all.len(),
                forall|i: int|
                    0 <= i < actions@.len() ==> read_view(#[trigger] actions@[i]) == all[i],
                forall|i: int|
                    0 <= i < reversed@.len() ==> (#[trigger] reversed@[i])@ == all[all.len() - 1
                        - i],
            decreases actions@.len(),
        {
            match actions.pop() {
                Some(action) => {
                    reversed.push(read_operation(action));
                },
                None => {},
            }
        }
        let operations = in_order(reversed);
        assert(operations_view(operations@) =~= all);
        Ok(operations)
    }
}

/// The operations, last first.
fn in_order(operations: Vec<Operation>) -> (r: Vec<Operation>)
    ensures
        r@.len() == operations@.len(),
        forall|i: int|
            0 <= i < r@.len() ==> #[trigger] r@[i] == operations@[operations@.len() - 1 - i],
{
    let ghost all = operations@;
    let mut rest = operations;
    let mut r: Vec<Operation> = Vec::new();
    while rest.len() > 0
        invariant
            rest@.len() + r@.len() == all.len(),
            rest@ == all.take(rest@.len() as int),
            forall|i: int| 0 <= i < r@.len() ==> #[trigger] r@[i] == all[all.len() - 1 - i],
        decreases rest@.len(),
    {
        match rest.pop() {
            Some(operation) => {
                r.push(operation);
            },
            None => {},
        }
    }
    r
}

// ---------------------------------------------------------------------------
// Writing
// ---------------------------------------------------------------------------

#[derive(Debug, PartialEq, Eq)]
pub enum WriteAction {
    Create { exclusive: bool },
    Write { offset: u64, data: Vec<u8> },
    WriteFull(Vec<u8>),
    Append(Vec<u8>),
    Truncate(u64),
    Zero { offset: u64, length: u64 },
    Remove,
    AssertVersion(u64),
    CompareExtent { offset: u64, data: Vec<u8> },
    SetXattr { name: Vec<u8>, value: Vec<u8> },
    RemoveXattr(Vec<u8>),
    SetOmap(Vec<u8>),
    RemoveOmap(Vec<u8>),
    RemoveOmapRange(Vec<u8>),
    ClearOmap,
    SetOmapHeader(Vec<u8>),
    CompareOmap(Vec<u8>),
    Exec(Operation),
    WithFlags { action: Box<WriteAction>, flags: u32 },
}

/// The operation that an action stands for.
pub open spec fn write_view(action: WriteAction) -> OperationView
    decreases action,
{
    match action {
        WriteAction::Create { exclusive } => OperationView::Create { exclusive },
        WriteAction::Write { offset, data } => OperationView::Write { offset, data: data@ },
        WriteAction::WriteFull(data) => OperationView::WriteFull(data@),
        WriteAction::Append(data) => OperationView::Append(data@),
        WriteAction::Truncate(size) => OperationView::Truncate { size },
        WriteAction::Zero { offset, length } => OperationView::Zero { offset, length },
        WriteAction::Remove => OperationView::Remove,
        WriteAction::AssertVersion(version) => OperationView::AssertVersion(version),
        WriteAction::CompareExtent { offset, data } => OperationView::CompareExtent {
            offset,
            data: data@,
        },
        WriteAction::SetXattr { name, value } => OperationView::SetXattr {
            name: name@,
            value: value@,
        },
        WriteAction::RemoveXattr(name) => OperationView::RemoveXattr(name@),
        WriteAction::SetOmap(payload) => OperationView::OmapSetValues(payload@),
        WriteAction::RemoveOmap(payload) => OperationView::OmapRemoveKeys(payload@),
        WriteAction::RemoveOmapRange(payload) => OperationView::OmapRemoveRange(payload@),
        WriteAction::ClearOmap => OperationView::OmapClear,
        WriteAction::SetOmapHeader(value) => OperationView::OmapSetHeader(value@),
        WriteAction::CompareOmap(payload) => OperationView::OmapCompare(payload@),
        WriteAction::Exec(operation) => operation@,
        WriteAction::WithFlags { action, flags } => OperationView::WithFlags {
            operation: Box::new(write_view(*action)),
            flags,
        },
    }
}

/// The operation of an action without the flags that it was given.
pub open spec fn plain_write(action: WriteAction) -> OperationView {
    match action {
        WriteAction::WithFlags { action, .. } => write_view(*action),
        _ => write_view(action),
    }
}

/// A bounded, single-use atomic write-operation builder.
#[derive(Debug)]
pub struct WriteOp {
    pub actions: Vec<WriteAction>,
    pub retained_bytes: usize,
}

/// The operations that a builder has collected, and how many bytes it holds for them.
#[verifier::ext_equal]
pub struct WriteOpView {
    pub operations: Seq<OperationView>,
    pub retained: nat,
}

impl View for WriteOp {
    type V = WriteOpView;

    open spec fn view(&self) -> WriteOpView {
        WriteOpView {
            operations: Seq::new(self.actions@.len(), |i: int| write_view(self.actions@[i])),
            retained: self.retained_bytes as nat,
        }
    }
}

impl WriteOp {
    /// The builder is within its bounds and holds what its operations carry, and flags are kept
    /// around an operation, never around flags.
    pub open spec fn wf(&self) -> bool {
        &&& self@.operations.len() <= MAX_SUB_OPERATIONS
        &&& self@.retained <= MAX_OPERATION_BYTES
        &&& self@.retained == all_data(self@.operations).len()
        &&& forall|i: int|
            0 <= i < self.actions@.len() ==> !(plain_write(
                #[trigger] self.actions@[i],
            ) is WithFlags)
    }
}

/// Whether a builder has room for an operation.
pub open spec fn has_room(before: WriteOpView, operation: OperationView) -> bool {
    before.operations.len() != MAX_SUB_OPERATIONS && before.retained + operation_data(
        operation,
    ).len() <= MAX_OPERATION_BYTES
}

/// A builder of writes after a step, unless it refuses the step.
pub open spec fn write_step(before: WriteOpView, step: BuildStep) -> Option<WriteOpView> {
    match step {
        BuildStep::Append(operation) => if has_room(before, operation) {
            Some(
                WriteOpView {
                    operations: before.operations.push(operation),
                    retained: before.retained + operation_data(operation).len(),
                },
            )
        } else {
            None
        },
        BuildStep::Flag { index, flags } => if flaggable(before.operations, index, flags) {
            Some(WriteOpView { operations: flagged(before.operations, index, flags), ..before })
        } else {
            None
        },
    }
}

/// What a step of a builder yields: the builder with one more operation, the complaint of the
/// step where its arguments are not valid, or that of the builder where there is no room.
pub open spec fn extended(
    r: Result<WriteOp, Error>,
    before: WriteOp,
    valid: bool,
    step: &str,
    operation: OperationView,
) -> bool {
    match r {
        Ok(op) => {
            &&& valid
            &&& write_step(before@, BuildStep::Append(operation)) == Some(op@)
            &&& before.wf() ==> op.wf()
        },
        Err(error) => if !valid {
            error.operation@ == step@
        } else {
            write_step(before@, BuildStep::Append(operation)) is None && error.operation@
                == "WriteOp"@
        },
    }
}

fn write_operation(action: WriteAction) -> (r: Operation)
    ensures
        r@ == write_view(action),
    decreases action,
{
    match action {
        WriteAction::Create { exclusive } => Operation::Create { exclusive },
        WriteAction::Write { offset, data } => Operation::Write { offset, data },
        WriteAction::WriteFull(data) => Operation::WriteFull(data),
        WriteAction::Append(data) => Operation::Append(data),
        WriteAction::Truncate(size) => Operation::Truncate { size },
        WriteAction::Zero { offset, length } => Operation::Zero { offset, length },
        WriteAction::Remove => Operation::Remove,
        WriteAction::AssertVersion(version) => Operation::AssertVersion(version),
        WriteAction::CompareExtent { offset, data } => Operation::CompareExtent { offset, data },
        WriteAction::SetXattr { name, value } => Operation::SetXattr { name, value },
        WriteAction::RemoveXattr(name) => Operation::RemoveXattr(name),
        WriteAction::SetOmap(payload) => Operation::OmapSetValues(payload),
        WriteAction::RemoveOmap(payload) => Operation::OmapRemoveKeys(payload),
        WriteAction::RemoveOmapRange(payload) => Operation::OmapRemoveRange(payload),
        WriteAction::ClearOmap => Operation::OmapClear,
        WriteAction::SetOmapHeader(value) => Operation::OmapSetHeader(value),
        WriteAction::CompareOmap(payload) => Operation::OmapCompare(payload),
        WriteAction::Exec(operation) => operation,
        WriteAction::WithFlags { action, flags } => {
            let operation = write_operation(*action);
            Operation::WithFlags { operation: Box::new(operation), flags }
        },
    }
}

/// The entries of a map as they are written.
pub open spec fn omap_view(values: Seq<OmapEntry>) -> Seq<EntryView> {
    Seq::new(
        values.len(),
        |i: int| EntryView { key: values[i].key@, value: values[i].value@ },
    )
}

fn as_entries(values: &Vec<OmapEntry>) -> (r: Vec<Entry>)
    ensures
        entries_view(r@) == omap_view(values@),
{
    let mut entries: Vec<Entry> = Vec::new();
    let mut i: usize = 0;
    while i < values.len()
        invariant
            i <= values@.len(),
            entries@.len() == i,
            forall|j: int|
                0 <= j < i ==> (#[trigger] entries@[j])@ == (EntryView {
                    key: values@[j].key@,
                    value: values@[j].value@,
                }),
        decreases values@.len() - i,
    {
        entries.push(
            Entry {
                key: slice_to_vec(values[i].key.as_slice()),
                value: slice_to_vec(values[i].value.as_slice()),
            },
        );
        i = i + 1;
    }
    assert(entries_view(entries@) =~= omap_view(values@));
    entries
}

/// The payload that compares the value of one key.
pub open spec fn compare_payload(key: Seq<u8>, value: Seq<u8>) -> Seq<u8> {
    le32(1) + (prefixed(key) + (prefixed(value) + le32(unsigned32(1))))
}

impl Default for WriteOp {
    fn default() -> (r: Self)
        ensures
            r@ == (WriteOpView { operations: Seq::empty(), retained: 0 }),
            r.wf(),
    {
        WriteOp::new()
    }
}

impl WriteOp {
    /// Creates an empty operation.
    #[must_use]
    pub fn new() -> (r: Self)
        ensures
            r@ == (WriteOpView { operations: Seq::empty(), retained: 0 }),
            r.wf(),
    {
        let r = WriteOp { actions: Vec::new(), retained_bytes: 0 };
        assert(r@.operations =~= Seq::empty());
        r
    }

    fn push(self, action: WriteAction, retained_bytes: usize) -> (r: Result<Self, Error>)
        requires
            retained_bytes == operation_data(write_view(action)).len(),
            !(plain_write(action) is WithFlags),
        ensures
            extended(r, self, true, "WriteOp", write_view(action)),
    {
        let ghost operation = write_view(action);
        let ghost before = self;
        let total: usize = match self.retained_bytes.checked_add(retained_bytes) {
            Some(total) => total,
            None => {
                return Err(Error::invalid("WriteOp"));
            },
        };
        if self.actions.len() == MAX_SUB_OPERATIONS || total > MAX_OPERATION_BYTES {
            return Err(Error::invalid("WriteOp"));
        }
        let mut actions = self.actions;
        actions.push(action);
        let r = WriteOp { actions, retained_bytes: total };
        proof {
            let ops = before@.operations.push(operation);
            assert(r@.operations =~= ops);
            assert(ops.drop_last() =~= before@.operations);
            assert(has_room(before@, operation));
            assert(r@ =~= write_step(before@, BuildStep::Append(operation))->Some_0);
        }
        Ok(r)
    }

    /// Appends object creation.
    ///
    /// # Errors
    ///
    /// Returns an invalid-argument error when the operation bound is reached.
    pub fn create(self, exclusive: bool) -> (r: Result<Self, Error>)
        ensures
            extended(r, self, true, "WriteOp", OperationView::Create { exclusive }),
    {
        self.push(WriteAction::Create { exclusive }, 0)
    }

    /// Appends an owned write.
    ///
    /// # Errors
    ///
    /// Returns an invalid-argument error on range overflow or retained-byte limits.
    pub fn write(self, offset: u64, data: &[u8]) -> (r: Result<Self, Error>)
        ensures
            extended(
                r,
                self,
                offset + data@.len() <= u64::MAX,
                "WriteOp::write",
                OperationView::Write { offset, data: data@ },
            ),
    {
        if offset > u64::MAX - data.len() as u64 {
            return Err(Error::invalid("WriteOp::write"));
        }
        self.push(WriteAction::Write { offset, data: slice_to_vec(data) }, data.len())
    }

    /// Appends an owned full-object write.
    ///
    /// # Errors
    ///
    /// Returns an invalid-argument error when retained-byte limits are exceeded.
    pub fn write_full(self, data: &[u8]) -> (r: Result<Self, Error>)
        ensures
            extended(r, self, true, "WriteOp", OperationView::WriteFull(data@)),
    {
        self.push(WriteAction::WriteFull(slice_to_vec(data)), data.len())
    }

    /// Appends owned bytes to the object.
    ///
    /// # Errors
    ///
    /// Returns an invalid-argument error when retained-byte limits are exceeded.
    pub fn append(self, data: &[u8]) -> (r: Result<Self, Error>)
        ensures
            extended(r, self, true, "WriteOp", OperationView::Append(data@)),
    {
        self.push(WriteAction::Append(slice_to_vec(data)), data.len())
    }

    /// Appends a truncate operation.
    ///
    /// # Errors
    ///
    /// Returns an invalid-argument error when the operation bound is reached.
    pub fn truncate(self, size: u64) -> (r: Result<Self, Error>)
        ensures
            extended(r, self, true, "WriteOp", OperationView::Truncate { size }),
    {
        self.push(WriteAction::Truncate(size), 0)
    }

    /// Appends a zero operation.
    ///
    /// # Errors
    ///
    /// Returns an invalid-argument error on range overflow or operation limits.
    pub fn zero(self, offset: u64, length: u64) -> (r: Result<Self, Error>)
        ensures
            extended(
                r,
                self,
                offset + length <= u64::MAX,
                "WriteOp::zero",
                OperationView::Zero { offset, length },
            ),
    {
        if offset > u64::MAX - length {
            return Err(Error::invalid("WriteOp::zero"));
        }
        self.push(WriteAction::Zero { offset, length }, 0)
    }

    /// Appends object removal.
    ///
    /// # Errors
    ///
    /// Returns an invalid-argument error when the operation bound is reached.
    pub fn remove(self) -> (r: Result<Self, Error>)
        ensures
            extended(r, self, true, "WriteOp", OperationView::Remove),
    {
        self.push(WriteAction::Remove, 0)
    }

    /// Requires an exact object version.
    ///
    /// # Errors
    ///
    /// Returns an invalid-argument error when the operation bound is reached.
    pub fn assert_version(self, version: u64) -> (r: Result<Self, Error>)
        ensures
            extended(r, self, true, "WriteOp", OperationView::AssertVersion(version)),
    {
        self.push(WriteAction::AssertVersion(version), 0)
    }

    /// Appends a byte comparison at `offset`.
    ///
    /// # Errors
    ///
    /// Returns an invalid-argument error on range, retained-byte, or operation overflow.
    pub fn compare_extent(self, offset: u64, data: &[u8]) -> (r: Result<Self, Error>)
        ensures
            extended(
                r,
                self,
                offset + data@.len() <= u64::MAX,
                "WriteOp::compare_extent",
                OperationView::CompareExtent { offset, data: data@ },
            ),
    {
        if offset > u64::MAX - data.len() as u64 {
            return Err(Error::invalid("WriteOp::compare_extent"));
        }
        self.push(WriteAction::CompareExtent { offset, data: slice_to_vec(data) }, data.len())
    }

    /// Appends an extended-attribute update.
    ///
    /// # Errors
    ///
    /// Returns an invalid-argument error for an invalid name or retained-byte or operation overflow.
    pub fn set_xattr(self, name: &[u8], value: &[u8]) -> (r: Result<Self, Error>)
        ensures
            extended(
                r,
                self,
                valid_name(name@) && name@.len() + value@.len() <= usize::MAX,
                "WriteOp::set_xattr",
                OperationView::SetXattr { name: name@, value: value@ },
            ),
    {
        let name = valid_xattr_name(name, "WriteOp::set_xattr")?;
        let retained: usize = match name.len().checked_add(value.len()) {
            Some(retained) => retained,
            None => {
                return Err(Error::invalid("WriteOp::set_xattr"));
            },
        };
        self.push(WriteAction::SetXattr { name, value: slice_to_vec(value) }, retained)
    }

    /// Appends an extended-attribute removal.
    ///
    /// # Errors
    ///
    /// Returns an invalid-argument error for an invalid name or retained-byte or operation overflow.
    pub fn remove_xattr(self, name: &[u8]) -> (r: Result<Self, Error>)
        ensures
            extended(
                r,
                self,
                valid_name(name@),
                "WriteOp::remove_xattr",
                OperationView::RemoveXattr(name@),
            ),
    {
        let name = valid_xattr_name(name, "WriteOp::remove_xattr")?;
        let retained: usize = name.len();
        self.push(WriteAction::RemoveXattr(name), retained)
    }

    /// Appends sorted binary OMAP updates.
    ///
    /// # Errors
    ///
    /// Returns an invalid-argument error for duplicate keys or retained-byte or operation overflow.
    pub fn set_omap(self, values: Vec<OmapEntry>) -> (r: Result<Self, Error>)
        ensures
            extended(
                r,
                self,
                map_encoding(omap_view(values@), MAX_OPERATION_BYTES as nat) is Ok,
                "WriteOp::set_omap",
                OperationView::OmapSetValues(
                    map_encoding(omap_view(values@), MAX_OPERATION_BYTES as nat)->Ok_0,
                ),
            ),
    {
        let entries = as_entries(&values);
        let payload = match encode_map(&entries, MAX_OPERATION_BYTES) {
            Ok(payload) => payload,
            Err(_) => {
                return Err(Error::invalid("WriteOp::set_omap"));
            },
        };
        let retained: usize = payload.len();
        self.push(WriteAction::SetOmap(payload), retained)
    }

    /// Appends sorted binary OMAP-key removals.
    ///
    /// # Errors
    ///
    /// Returns an invalid-argument error for duplicate keys or retained-byte or operation overflow.
    pub fn remove_omap(self, keys: Vec<Vec<u8>>) -> (r: Result<Self, Error>)
        ensures
            extended(
                r,
                self,
                keys_encoding(bare(keys@), MAX_OPERATION_BYTES as nat) is Ok,
                "WriteOp::remove_omap",
                OperationView::OmapRemoveKeys(
                    keys_encoding(bare(keys@), MAX_OPERATION_BYTES as nat)->Ok_0,
                ),
            ),
    {
        let payload = match encode_keys(&keys, MAX_OPERATION_BYTES) {
            Ok(payload) => payload,
            Err(_) => {
                return Err(Error::invalid("WriteOp::remove_omap"));
            },
        };
        let retained: usize = payload.len();
        self.push(WriteAction::RemoveOmap(payload), retained)
    }

    /// Appends a half-open binary OMAP-key range removal.
    ///
    /// # Errors
    ///
    /// Returns an invalid-argument error for an empty/reversed range or retained-byte overflow.
    pub fn remove_omap_range(self, begin: &[u8], end: &[u8]) -> (r: Result<Self, Error>)
        ensures
            extended(
                r,
                self,
                bytes_less(begin@, end@) && (prefixed(begin@) + prefixed(end@)).len()
                    <= MAX_OPERATION_BYTES,
                "WriteOp::remove_omap_range",
                OperationView::OmapRemoveRange(prefixed(begin@) + prefixed(end@)),
            ),
    {
        let payload = match encode_range(begin, end, MAX_OPERATION_BYTES) {
            Ok(payload) => payload,
            Err(_) => {
                return Err(Error::invalid("WriteOp::remove_omap_range"));
            },
        };
        let retained: usize = payload.len();
        self.push(WriteAction::RemoveOmapRange(payload), retained)
    }

    /// Appends an OMAP clear.
    ///
    /// # Errors
    ///
    /// Returns an invalid-argument error when the operation bound is reached.
    pub fn clear_omap(self) -> (r: Result<Self, Error>)
        ensures
            extended(r, self, true, "WriteOp", OperationView::OmapClear),
    {
        self.push(WriteAction::ClearOmap, 0)
    }

    /// Appends an owned OMAP-header update.
    ///
    /// # Errors
    ///
    /// Returns an invalid-argument error on retained-byte or operation overflow.
    pub fn set_omap_header(self, value: &[u8]) -> (r: Result<Self, Error>)
        ensures
            extended(r, self, true, "WriteOp", OperationView::OmapSetHeader(value@)),
    {
        self.push(WriteAction::SetOmapHeader(slice_to_vec(value)), value.len())
    }

    /// Appends an equality comparison for one binary OMAP value.
    ///
    /// # Errors
    ///
    /// Returns an invalid-argument error on retained-byte or operation overflow.
    pub fn compare_omap(self, key: &[u8], value: &[u8]) -> (r: Result<Self, Error>)
        ensures
            extended(
                r,
                self,
                compare_payload(key@, value@).len() <= MAX_OPERATION_BYTES,
                "WriteOp::compare_omap",
                OperationView::OmapCompare(compare_payload(key@, value@)),
            ),
    {
        let payload = match encode_compare(key, value, 1, MAX_OPERATION_BYTES) {
            Ok(payload) => payload,
            Err(_) => {
                return Err(Error::invalid("WriteOp::compare_omap"));
            },
        };
        let retained: usize = payload.len();
        self.push(WriteAction::CompareOmap(payload), retained)
    }

    /// Appends a potentially mutating class method call with copied input.
    ///
    /// # Errors
    ///
    /// Returns an invalid-argument error for invalid names, retained-byte limits, or operation overflow.
    pub fn exec(self, class: &[u8], method: &[u8], input: &[u8]) -> (r: Result<Self, Error>)
        ensures
            extended(
                r,
                self,
                valid_call(class@, method@, input@),
                "WriteOp::exec",
                call_view(class@, method@, input@, true),
            ),
    {
        let operation = class_operation(class, method, input, true, "WriteOp::exec")?;
        let retained: usize = class.len() + method.len() + input.len();
        self.push(WriteAction::Exec(operation), retained)
    }

    /// Applies flags to an existing sub-operation by its zero-based result index.
    ///
    /// # Errors
    ///
    /// Returns an invalid-argument error for an unknown index or unsupported flag.
    pub fn set_flags(self, index: usize, flags: SubOperationFlags) -> (r: Result<Self, Error>)
        ensures
            match r {
                Ok(op) => flaggable(self@.operations, index as int, flags.bits) && (self.wf()
                    ==> op.wf() && write_step(
                    self@,
                    BuildStep::Flag { index: index as int, flags: flags.bits },
                ) == Some(op@)),
                Err(error) => !flaggable(self@.operations, index as int, flags.bits)
                    && error.operation@ == "WriteOp::set_flags"@,
            },
    {
        if index >= self.actions.len() || flags.bits() & !OP_FLAG_FAIL_OK != 0 {
            return Err(Error::invalid("WriteOp::set_flags"));
        }
        let ghost before = self;
        let retained_bytes: usize = self.retained_bytes;
        let mut actions = self.actions;
        let action = match actions.remove(index) {
            WriteAction::WithFlags { action, .. } => *action,
            action => action,
        };
        let wrapped = WriteAction::WithFlags { action: Box::new(action), flags: flags.bits() };
        actions.insert(index, wrapped);
        let r = WriteOp { actions, retained_bytes };
        proof {
            let ops = before@.operations.update(index as int, write_view(wrapped));
            assert(r@.operations =~= ops);
            lemma_same_data(before@.operations, index as int, write_view(wrapped));
            if before.wf() {
                assert(!(plain_write(before.actions@[index as int]) is WithFlags));
                assert forall|i: int| 0 <= i < r.actions@.len() implies !(plain_write(
                    #[trigger] r.actions@[i],
                ) is WithFlags) by {
                    if i != index {
                        assert(r.actions@[i] == before.actions@[i]);
                    }
                }
                assert(r@.operations =~= flagged(before@.operations, index as int, flags.bits));
            }
        }
        Ok(r)
    }

    /// The operations, in the order in which they were appended.
    pub fn into_operations(self) -> (r: Result<Vec<Operation>, Error>)
        ensures
            match r {
                Ok(operations) => self@.operations.len() > 0 && operations_view(operations@)
                    == self@.operations,
                Err(error) => self@.operations.len() == 0 && error.operation@ == "WriteOp"@,
            },
    {
        if self.actions.len() == 0 {
            return Err(Error::invalid("WriteOp"));
        }
        let ghost all = self@.operations;
        let mut actions = self.actions;
        let mut reversed: Vec<Operation> = Vec::new();
        while actions.len() > 0
            invariant
                actions@.len() + reversed@.len() == all.len(),
                forall|i: int|
                    0 <= i < actions@.len() ==> write_view(#[trigger] actions@[i]) == all[i],
                forall|i: int|
                    0 <= i < reversed@.len() ==> (#[trigger] reversed@[i])@ == all[all.len() - 1
                        - i],
            decreases actions@.len(),
        {
            match actions.pop() {
                Some(action) => {
                    reversed.push(write_operation(action));
                },
                None => {},
            }
        }
        let operations = in_order(reversed);
        assert(operations_view(operations@) =~= all);
        Ok(operations)
    }
}

proof fn lemma_same_data(ops: Seq<OperationView>, index: int, op: OperationView)
    requires
        0 <= index < ops.len(),
        operation_data(op) == operation_data(ops[index]),
    ensures
        all_data(ops.update(index, op)) == all_data(ops),
    decreases ops.len(),
{
    let shorter = ops.drop_last();
    if index < ops.len() - 1 {
        lemma_same_data(shorter, index, op);
        assert(ops.update(index, op).drop_last() =~= shorter.update(index, op));
    } else {
        assert(ops.update(index, op).drop_last() =~= shorter);
    }
}

// ---------------------------------------------------------------------------
// Laws
// ---------------------------------------------------------------------------

/// The operations of a new builder of reads after steps, unless it refuses one of them.
pub open spec fn read_built(steps: Seq<BuildStep>) -> Option<Seq<OperationView>>
    decreases steps.len(),
{
    if steps.len() == 0 {
        Some(Seq::empty())
    } else {
        match read_built(steps.drop_last()) {
            Some(operations) => read_step(operations, steps.last()),
            None => None,
        }
    }
}

/// A new builder of writes after steps, unless it refuses one of them.
pub open spec fn write_built(steps: Seq<BuildStep>) -> Option<WriteOpView>
    decreases steps.len(),
{
    if steps.len() == 0 {
        Some(WriteOpView { operations: Seq::empty(), retained: 0 })
    } else {
        match write_built(steps.drop_last()) {
            Some(before) => write_step(before, steps.last()),
            None => None,
        }
    }
}

/// The operations that steps append, in their order.
pub open spec fn appended(steps: Seq<BuildStep>) -> Seq<OperationView>
    decreases steps.len(),
{
    if steps.len() == 0 {
        Seq::empty()
    } else {
        match steps.last() {
            BuildStep::Append(operation) => appended(steps.drop_last()).push(operation),
            BuildStep::Flag { .. } => appended(steps.drop_last()),
        }
    }
}

/// The flags that the operation at an index is given last.
pub open spec fn last_flags(steps: Seq<BuildStep>, at: int) -> Option<u32>
    decreases steps.len(),
{
    if steps.len() == 0 {
        None
    } else {
        match steps.last() {
            BuildStep::Flag { index, flags } => if index == at {
                Some(flags)
            } else {
                last_flags(steps.drop_last(), at)
            },
            BuildStep::Append(_) => last_flags(steps.drop_last(), at),
        }
    }
}

/// An operation with flags, if it has any.
pub open spec fn with_flags(operation: OperationView, flags: Option<u32>) -> OperationView {
    match flags {
        Some(flags) => OperationView::WithFlags { operation: Box::new(operation), flags },
        None => operation,
    }
}

/// Whether steps append operations without flags, as those of the builders do, and give flags to
/// indices.
pub open spec fn plain_steps(steps: Seq<BuildStep>) -> bool {
    forall|k: int|
        0 <= k < steps.len() ==> match #[trigger] steps[k] {
            BuildStep::Append(operation) => !(operation is WithFlags),
            BuildStep::Flag { index, .. } => index >= 0,
        }
}

/// What a builder that was not refused a step holds: the operations that were appended, in order,
/// each with the flags that it was given last.
pub open spec fn holds_steps(operations: Seq<OperationView>, steps: Seq<BuildStep>) -> bool {
    &&& operations.len() == appended(steps).len()
    &&& operations.len() <= MAX_SUB_OPERATIONS
    &&& forall|i: int|
        0 <= i < operations.len() ==> #[trigger] operations[i] == with_flags(
            appended(steps)[i],
            last_flags(steps, i),
        )
    &&& forall|i: int| i >= operations.len() ==> #[trigger] last_flags(steps, i) is None
    &&& forall|i: int|
        0 <= i < operations.len() ==> !(#[trigger] appended(steps)[i] is WithFlags)
}

proof fn lemma_plain_step(before: Seq<OperationView>, steps: Seq<BuildStep>)
    requires
        steps.len() > 0,
        plain_steps(steps),
        holds_steps(before, steps.drop_last()),
        read_step(before, steps.last()) is Some,
    ensures
        holds_steps(read_step(before, steps.last())->Some_0, steps),
{
    let shorter = steps.drop_last();
    let after = read_step(before, steps.last())->Some_0;
    assert(steps[steps.len() - 1] == steps.last());
    assert forall|i: int| 0 <= i < after.len() implies #[trigger] after[i] == with_flags(
        appended(steps)[i],
        last_flags(steps, i),
    ) && !(appended(steps)[i] is WithFlags) by {
        if i < before.len() {
            assert(before[i] == with_flags(appended(shorter)[i], last_flags(shorter, i)));
            assert(!(appended(shorter)[i] is WithFlags));
            assert(appended(steps)[i] == appended(shorter)[i]);
        } else {
            assert(last_flags(shorter, i) is None);
        }
    }
    assert forall|i: int| i >= after.len() implies #[trigger] last_flags(steps, i) is None by {
        assert(last_flags(shorter, i) is None);
    }
}

proof fn lemma_plain_prefix(steps: Seq<BuildStep>)
    requires
        steps.len() > 0,
        plain_steps(steps),
    ensures
        plain_steps(steps.drop_last()),
{
    assert forall|k: int| 0 <= k < steps.drop_last().len() implies match #[trigger] steps.drop_last()[k] {
        BuildStep::Append(operation) => !(operation is WithFlags),
        BuildStep::Flag { index, .. } => index >= 0,
    } by {
        assert(steps.drop_last()[k] == steps[k]);
    }
}

/// A builder of reads holds at most as many operations as it may, those that were appended, in
/// order, each with the flags that it was given last. It refuses an operation only if it is full.
pub proof fn law_read_builder_holds_its_steps(steps: Seq<BuildStep>, next: OperationView)
    requires
        plain_steps(steps),
        read_built(steps) is Some,
    ensures
        holds_steps(read_built(steps)->Some_0, steps),
        read_step(read_built(steps)->Some_0, BuildStep::Append(next)) == if read_built(
            steps,
        )->Some_0.len() < MAX_SUB_OPERATIONS {
            Some(read_built(steps)->Some_0.push(next))
        } else {
            None
        },
    decreases steps.len(),
{
    if steps.len() > 0 {
        lemma_plain_prefix(steps);
        law_read_builder_holds_its_steps(steps.drop_last(), next);
        lemma_plain_step(read_built(steps.drop_last())->Some_0, steps);
    }
}

/// A builder of writes holds what was appended in the same way, and no more bytes than it may,
/// which are those of its operations. It refuses an operation only if it is full or the bytes would
/// be too many.
pub proof fn law_write_builder_holds_its_steps(steps: Seq<BuildStep>, next: OperationView)
    requires
        plain_steps(steps),
        write_built(steps) is Some,
    ensures
        holds_steps(write_built(steps)->Some_0.operations, steps),
        write_built(steps)->Some_0.retained == all_data(appended(steps)).len(),
        write_built(steps)->Some_0.retained <= MAX_OPERATION_BYTES,
        write_step(write_built(steps)->Some_0, BuildStep::Append(next)) is Some <==> write_built(
            steps,
        )->Some_0.operations.len() < MAX_SUB_OPERATIONS && all_data(appended(steps)).len()
            + operation_data(next).len() <= MAX_OPERATION_BYTES,
    decreases steps.len(),
{
    if steps.len() > 0 {
        lemma_plain_prefix(steps);
        law_write_builder_holds_its_steps(steps.drop_last(), next);
        let before = write_built(steps.drop_last())->Some_0;
        let after = write_built(steps)->Some_0;
        lemma_plain_step(before.operations, steps);
        match steps.last() {
            BuildStep::Append(operation) => {
                assert(appended(steps).drop_last() =~= appended(steps.drop_last()));
            },
            BuildStep::Flag { .. } => {},
        }
    }
}

/// The flags that an operation is given last are the ones that it has, whatever it had before, and
/// flags of two operations do not disturb each other. Giving flags keeps the number of operations,
/// so a full builder takes them as well.
pub proof fn law_last_flags_win(
    operations: Seq<OperationView>,
    i: int,
    j: int,
    first: u32,
    second: u32,
)
    requires
        0 <= i < operations.len(),
        0 <= j < operations.len(),
        i != j,
    ensures
        flagged(flagged(operations, i, first), i, second) == flagged(operations, i, second),
        flagged(flagged(operations, i, first), j, second) == flagged(
            flagged(operations, j, second),
            i,
            first,
        ),
        flagged(operations, i, first).len() == operations.len(),
        flaggable(flagged(operations, i, first), j, second) == flaggable(operations, j, second),
{
    assert(flagged(flagged(operations, i, first), i, second) =~= flagged(operations, i, second));
    assert(flagged(flagged(operations, i, first), j, second) =~= flagged(
        flagged(operations, j, second),
        i,
        first,
    ));
}

/// The order in which entries of a map are given does not matter: the same entries in another order
/// make the same operation, or are refused as well. They are refused if a key occurs twice.
pub proof fn law_set_omap_ignores_order(
    values: Seq<OmapEntry>,
    others: Seq<OmapEntry>,
    before: WriteOpView,
)
    requires
        omap_view(values).to_multiset() == omap_view(others).to_multiset(),
    ensures
        ({
            let one = map_encoding(omap_view(values), MAX_OPERATION_BYTES as nat);
            let other = map_encoding(omap_view(others), MAX_OPERATION_BYTES as nat);
            &&& one == other
            &&& !distinct_keys(omap_view(values)) ==> one is Err
            &&& one is Ok ==> write_step(
                before,
                BuildStep::Append(OperationView::OmapSetValues(one->Ok_0)),
            ) == write_step(before, BuildStep::Append(OperationView::OmapSetValues(other->Ok_0)))
        }),
{
    law_order_of_entries_does_not_matter(
        omap_view(values),
        omap_view(others),
        MAX_OPERATION_BYTES as nat,
    );
}

// ---------------------------------------------------------------------------
// Views
// ---------------------------------------------------------------------------

/// What stands for a value of this type has its fields.
pub proof fn law_write_op_has_its_fields(x: WriteOp)
    ensures
        x@.operations == (Seq::new(x.actions@.len(), |i: int| write_view(x.actions@[i]))),
        x@.retained == (x.retained_bytes as nat),
{
}

} // verus!
