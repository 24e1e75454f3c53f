//! Identities and bounds that the cluster maps share with messages.

use crate::wire::same_bytes;
use vstd::prelude::*;

verus! {

/// A placement group.
#[derive(Clone, Copy, Debug, PartialEq, Eq, Structural)]
pub struct PG {
    pub pool: u64,
    pub seed: u32,
    pub preferred: i32,
}

/// The identity of a cluster.
#[derive(Clone, Copy, Debug, PartialEq, Eq)]
pub struct Fsid(pub [u8; 16]);

impl View for Fsid {
    type V = Seq<u8>;

    open spec fn view(&self) -> Seq<u8> {
        self.0@
    }
}

impl Fsid {
    pub fn same(&self, other: &Fsid) -> (r: bool)
        ensures
            r == (self@ == other@),
    {
        same_bytes(self.0.as_slice(), other.0.as_slice())
    }
}

impl Default for Fsid {
    fn default() -> (r: Self)
        ensures
            r@ == crate::wire::zeros(16),
    {
        let r = Fsid([0; 16]);
        assert(r@ =~= crate::wire::zeros(16));
        r
    }
}

/// How much of a map is accepted.
#[derive(Clone, Copy, Debug, PartialEq, Eq, Structural)]
pub struct Limits {
    pub max_bytes: u32,
    pub max_monitors: u32,
    pub max_addresses: u32,
    pub max_locations: u32,
    pub max_pools: u32,
    pub max_osds: u32,
    pub max_pg_mappings: u32,
    pub max_collection_entries: u32,
}

impl Default for Limits {
    fn default() -> (r: Self)
        ensures
            r == (Limits {
                max_bytes: 0,
                max_monitors: 0,
                max_addresses: 0,
                max_locations: 0,
                max_pools: 0,
                max_osds: 0,
                max_pg_mappings: 0,
                max_collection_entries: 0,
            }),
    {
        Limits {
            max_bytes: 0,
            max_monitors: 0,
            max_addresses: 0,
            max_locations: 0,
            max_pools: 0,
            max_osds: 0,
            max_pg_mappings: 0,
            max_collection_entries: 0,
        }
    }
}

/// Why a map is not accepted.
#[derive(Clone, Copy, Debug, PartialEq, Eq, Structural)]
pub enum MapError {
    FsidMismatch,
    InvalidSequence,
    Malformed,
}

} // verus!
