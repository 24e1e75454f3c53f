//! Listing the objects of a placement group.

use super::backoff::{
    decode_hobject, encode_hobject, get_hobject, hobject_bytes, law_hobject_reads_back, HObject,
    HObjectView,
};
use super::messages::{Operation, OperationView};
use crate::wire::{
    bounded, bytes_result, finished, get_bytes, get_many, get_u32, get_versioned,
    lemma_get_many_error, limited_input, Decoder, Encoder, Input, WireError,
};
use vstd::prelude::*;

verus! {

broadcast use crate::wire::group_integers;

/// The size of a cursor that is kept outside.
pub const CURSOR_MAX_BYTES: usize = 1024;

/// A name in a listing.
#[derive(Clone, Debug, PartialEq, Eq)]
pub struct ListEntry {
    pub namespace: Vec<u8>,
    pub object: Vec<u8>,
    pub locator: Vec<u8>,
}

pub struct ListEntryView {
    pub namespace: Seq<u8>,
    pub object: Seq<u8>,
    pub locator: Seq<u8>,
}

impl View for ListEntry {
    type V = ListEntryView;

    open spec fn view(&self) -> ListEntryView {
        ListEntryView {
            namespace: self.namespace@,
            object: self.object@,
            locator: self.locator@,
        }
    }
}

pub open spec fn list_view(entries: Seq<ListEntry>) -> Seq<ListEntryView> {
    Seq::new(entries.len(), |i: int| entries[i]@)
}

/// A part of a listing, and where the next one begins.
#[derive(Clone, Debug, PartialEq, Eq)]
pub struct ListPage {
    pub next: HObject,
    pub entries: Vec<ListEntry>,
}

pub struct ListPageView {
    pub next: HObjectView,
    pub entries: Seq<ListEntryView>,
}

impl View for ListPage {
    type V = ListPageView;

    open spec fn view(&self) -> ListPageView {
        ListPageView { next: self.next@, entries: list_view(self.entries@) }
    }
}

/// What `encode_operation` yields: a listing from the cursor on, routed by the cursor's hash.
pub open spec fn listing(cursor: HObjectView, count: u64, start_epoch: u32, max_bytes: nat) -> Result<
    OperationView,
    WireError,
> {
    if count == 0 {
        Err(WireError::Malformed)
    } else {
        match bounded(hobject_bytes(cursor), max_bytes) {
            Err(error) => Err(error),
            Ok(bytes) => Ok(
                OperationView::PGNList {
                    cursor: bytes,
                    cursor_hash: cursor.hash,
                    count,
                    start_epoch,
                },
            ),
        }
    }
}

pub fn encode_operation(cursor: &HObject, count: u64, start_epoch: u32, max_bytes: usize) -> (r:
    Result<Operation, WireError>)
    ensures
        r matches Ok(operation) ==> listing(cursor@, count, start_epoch, max_bytes as nat)
            == Ok::<OperationView, WireError>(operation@),
        r matches Err(error) ==> listing(cursor@, count, start_epoch, max_bytes as nat) == Err::<
            OperationView,
            WireError,
        >(error),
{
    if count == 0 {
        return Err(WireError::Malformed);
    }
    let mut encoder = Encoder::new(max_bytes);
    encode_hobject(&mut encoder, cursor);
    assert(encoder@ =~= hobject_bytes(cursor@));
    let bytes = encoder.finish()?;
    Ok(Operation::PGNList { cursor: bytes, cursor_hash: cursor.hash, count, start_epoch })
}

pub open spec fn list_entry_decoder() -> spec_fn(Input) -> Result<
    (ListEntryView, Input),
    WireError,
> {
    |d: Input|
        {
            let (namespace, d1) = get_bytes(d);
            let (object, d2) = get_bytes(d1);
            let (locator, d3) = get_bytes(d2);
            if finished(d3) is Err {
                Err(finished(d3)->Err_0)
            } else {
                Ok((ListEntryView { namespace, object, locator }, d3))
            }
        }
}

/// What `decode_page` yields.
pub open spec fn page_decoding(data: Seq<u8>, max_bytes: nat, max_entries: nat) -> Result<
    ListPageView,
    WireError,
> {
    let (version, payload, rest) = get_versioned(limited_input(data, max_bytes), 1);
    if finished(rest) is Err {
        Err(finished(rest)->Err_0)
    } else if version != 1 {
        Err(WireError::UnsupportedVersion { local: 1, required: version })
    } else {
        match get_hobject(payload) {
            Err(error) => Err(error),
            Ok((next, d1)) => {
                let (count, d2) = get_u32(d1);
                if finished(d2) is Err {
                    Err(finished(d2)->Err_0)
                } else if count > max_entries || count * 12 > d2.rest.len() {
                    Err(WireError::LimitExceeded)
                } else {
                    match get_many(d2, count as nat, list_entry_decoder()) {
                        Err(error) => Err(error),
                        Ok((entries, d3)) => if d3.rest.len() != 0 || rest.rest.len() != 0 {
                            Err(WireError::Malformed)
                        } else {
                            Ok(ListPageView { next, entries })
                        },
                    }
                }
            },
        }
    }
}

fn decode_list(decoder: &mut Decoder<'_>, count: u32) -> (r: Result<Vec<ListEntry>, WireError>)
    ensures
        r matches Ok(entries) ==> get_many(
            old(decoder)@,
            count as nat,
            list_entry_decoder(),
        ) == Ok::<(Seq<ListEntryView>, Input), WireError>(
            (list_view(entries@), final(decoder)@),
        ),
        r matches Err(error) ==> get_many(
            old(decoder)@,
            count as nat,
            list_entry_decoder(),
        ) == Err::<(Seq<ListEntryView>, Input), WireError>(error),
{
    let ghost start = decoder@;
    let ghost item = list_entry_decoder();
    let mut entries: Vec<ListEntry> = Vec::new();
    let mut i: u32 = 0;
    assert(list_view(entries@) =~= Seq::<ListEntryView>::empty());
    while i < count
        invariant
            i <= count,
            start == old(decoder)@,
            item == list_entry_decoder(),
            get_many(start, i as nat, item) == Ok::<(Seq<ListEntryView>, Input), WireError>(
                (list_view(entries@), decoder@),
            ),
        decreases count - i,
    {
        let ghost before = list_view(entries@);
        let namespace = decoder.bytes();
        let object = decoder.bytes();
        let locator = decoder.bytes();
        match decoder.finish() {
            Ok(_) => {},
            Err(error) => {
                proof {
                    lemma_get_many_error(start, (i + 1) as nat, count as nat, item);
                }
                return Err(error);
            },
        }
        let entry = ListEntry { namespace, object, locator };
        entries.push(entry);
        assert(list_view(entries@) =~= before.push(entry@));
        i = i + 1;
    }
    Ok(entries)
}

pub fn decode_page(data: &[u8], max_bytes: usize, max_entries: usize) -> (r: Result<
    ListPage,
    WireError,
>)
    ensures
        r matches Ok(page) ==> page_decoding(data@, max_bytes as nat, max_entries as nat) == Ok::<
            ListPageView,
            WireError,
        >(page@),
        r matches Err(error) ==> page_decoding(data@, max_bytes as nat, max_entries as nat)
            == Err::<ListPageView, WireError>(error),
{
    let mut decoder = Decoder::new(data, max_bytes);
    let (version, mut payload) = decoder.versioned(1);
    decoder.finish()?;
    if version != 1 {
        return Err(WireError::UnsupportedVersion { local: 1, required: version });
    }
    let next = decode_hobject(&mut payload)?;
    let count: u32 = payload.u32();
    payload.finish()?;
    if count as usize > max_entries || count as u64 * 12 > payload.remaining() as u64 {
        return Err(WireError::LimitExceeded);
    }
    let entries = decode_list(&mut payload, count)?;
    if payload.remaining() != 0 || decoder.remaining() != 0 {
        return Err(WireError::Malformed);
    }
    Ok(ListPage { next, entries })
}

/// What `unmarshal_cursor` yields.
pub open spec fn cursor_decoding(data: Seq<u8>) -> Result<HObjectView, WireError> {
    match get_hobject(limited_input(data, CURSOR_MAX_BYTES as nat)) {
        Err(error) => Err(error),
        Ok((cursor, d)) => if d.rest.len() != 0 {
            Err(WireError::Malformed)
        } else {
            Ok(cursor)
        },
    }
}

/// A cursor as bytes that a caller may keep.
pub fn marshal_cursor(cursor: &HObject) -> (r: Result<Vec<u8>, WireError>)
    ensures
        bytes_result(r) == bounded(hobject_bytes(cursor@), CURSOR_MAX_BYTES as nat),
{
    let mut encoder = Encoder::new(CURSOR_MAX_BYTES);
    encode_hobject(&mut encoder, cursor);
    assert(encoder@ =~= hobject_bytes(cursor@));
    encoder.finish()
}

pub fn unmarshal_cursor(data: &[u8]) -> (r: Result<HObject, WireError>)
    ensures
        r matches Ok(cursor) ==> cursor_decoding(data@) == Ok::<HObjectView, WireError>(cursor@),
        r matches Err(error) ==> cursor_decoding(data@) == Err::<HObjectView, WireError>(error),
{
    let mut decoder = Decoder::new(data, CURSOR_MAX_BYTES);
    let cursor = decode_hobject(&mut decoder)?;
    if decoder.remaining() != 0 {
        return Err(WireError::Malformed);
    }
    Ok(cursor)
}

/// A cursor that was kept is the cursor that it was.
pub proof fn law_cursor_reads_back(cursor: HObjectView)
    requires
        bounded(hobject_bytes(cursor), CURSOR_MAX_BYTES as nat) is Ok,
    ensures
        cursor_decoding(hobject_bytes(cursor)) == Ok::<HObjectView, WireError>(cursor),
{
    let none = Seq::<u8>::empty();
    assert(hobject_bytes(cursor) + none =~= hobject_bytes(cursor));
    law_hobject_reads_back(cursor, none);
}

/// A listing goes where the hash of its cursor says.
pub proof fn law_listing_is_routed_by_its_cursor(
    cursor: HObjectView,
    count: u64,
    start_epoch: u32,
    max_bytes: nat,
)
    ensures
        listing(cursor, count, start_epoch, max_bytes) matches Ok(operation)
            ==> super::messages::operation_route(operation) == Some(cursor.hash),
{
}

// ---------------------------------------------------------------------------
// Views
// ---------------------------------------------------------------------------

/// What stands for a value of this type has its fields.
pub proof fn law_list_entry_has_its_fields(x: ListEntry)
    ensures
        x@.namespace == x.namespace@,
        x@.object == x.object@,
        x@.locator == x.locator@,
{
}

/// What stands for a value of this type has its fields.
pub proof fn law_list_page_has_its_fields(x: ListPage)
    ensures
        x@.next == x.next@,
        x@.entries == (list_view(x.entries@)),
{
}

/// What stands for a list has what stands for each of its items, in order.
pub proof fn law_list_view_keeps_order(entries: Seq<ListEntry>, i: int)
    requires
        0 <= i < entries.len(),
    ensures
        list_view(entries).len() == entries.len(),
        list_view(entries)[i] == entries[i]@,
{
}

} // verus!
