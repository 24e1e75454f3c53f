//! Values that callers of the client exchange with it.

use crate::osd::messages::OP_FLAG_FAIL_OK;
use vstd::prelude::*;

verus! {

/// An argument that an operation does not take.
#[derive(Clone, Copy, Debug, PartialEq, Eq)]
pub struct Error {
    pub operation: &'static str,
}

impl Error {
    pub fn invalid(operation: &'static str) -> (r: Self)
        ensures
            r.operation@ == operation@,
    {
        Error { operation }
    }
}

/// A key and its value in the map of an object.
#[derive(Clone, Debug, PartialEq, Eq)]
pub struct OmapEntry {
    pub key: Vec<u8>,
    pub value: Vec<u8>,
}

/// A part of an object that holds data.
#[derive(Clone, Debug, PartialEq, Eq)]
pub struct SparseExtent {
    pub offset: u64,
    pub data: Vec<u8>,
}

pub struct SparseExtentView {
    pub offset: u64,
    pub data: Seq<u8>,
}

impl View for SparseExtent {
    type V = SparseExtentView;

    open spec fn view(&self) -> SparseExtentView {
        SparseExtentView { offset: self.offset, data: self.data@ }
    }
}

pub open spec fn extents_view(extents: Seq<SparseExtent>) -> Seq<SparseExtentView> {
    Seq::new(extents.len(), |i: int| extents[i]@)
}

/// A length of time: seconds, and less than a second of nanoseconds.
#[derive(Clone, Copy, Debug, PartialEq, Eq, Structural)]
pub struct Span {
    pub seconds: u64,
    pub nanoseconds: u32,
}

impl Span {
    pub open spec fn wf(self) -> bool {
        self.nanoseconds < 1_000_000_000
    }
}

/// Flags of one operation among those of a request.
#[derive(Clone, Copy, Debug, PartialEq, Eq, Structural)]
pub struct SubOperationFlags {
    pub bits: u32,
}

impl SubOperationFlags {
    /// The failure of the operation does not fail the request.
    pub fn fail_ok() -> (r: Self)
        ensures
            r.bits == OP_FLAG_FAIL_OK,
    {
        SubOperationFlags { bits: OP_FLAG_FAIL_OK }
    }

    pub fn empty() -> (r: Self)
        ensures
            r.bits == 0,
    {
        SubOperationFlags { bits: 0 }
    }

    pub fn bits(self) -> (r: u32)
        ensures
            r == self.bits,
    {
        self.bits
    }
}

// ---------------------------------------------------------------------------
// Views
// ---------------------------------------------------------------------------

/// What stands for a value of this type has its fields.
pub proof fn law_sparse_extent_has_its_fields(x: SparseExtent)
    ensures
        x@.offset == x.offset,
        x@.data == x.data@,
{
}

/// What stands for a list has what stands for each of its items, in order.
pub proof fn law_extents_view_keeps_order(extents: Seq<SparseExtent>, i: int)
    requires
        0 <= i < extents.len(),
    ensures
        extents_view(extents).len() == extents.len(),
        extents_view(extents)[i] == extents[i]@,
{
}

} // verus!
