//! Copies, sparse reads and checksums.

use super::messages::locator_bytes;
use crate::types::{extents_view, SparseExtent, SparseExtentView};
use crate::wire::{
    bounded, bytes_result, finished, get_bytes, get_u32, get_u64, le32, le64, limited_input,
    prefixed, Decoder, Encoder, Input, WireError,
};
use vstd::prelude::*;
use vstd::slice::{slice_subrange, slice_to_vec};

verus! {

broadcast use crate::wire::group_integers;

/// The object that a copy is made from.
pub struct CopySource<'a> {
    pub object: &'a [u8],
    pub pool: i64,
    pub locator: &'a [u8],
    pub namespace: &'a [u8],
}

/// A source on the wire, with the truncation that the copy takes over.
pub open spec fn copy_bytes(source: CopySource<'_>, truncate: Option<(u32, u64)>) -> Seq<u8> {
    prefixed(source.object@) + (locator_bytes(source.pool, source.locator@, source.namespace@) + (
    match truncate {
        Some((sequence, size)) => le32(sequence) + le64(size),
        None => Seq::empty(),
    }))
}

pub fn encode_copy_source(
    source: &CopySource<'_>,
    truncate: Option<(u32, u64)>,
    max_bytes: usize,
) -> (r: Result<Vec<u8>, WireError>)
    ensures
        bytes_result(r) == if source.object@.len() == 0 || source.pool < 0 {
            Err(WireError::Malformed)
        } else {
            bounded(copy_bytes(*source, truncate), max_bytes as nat)
        },
{
    if source.object.len() == 0 || source.pool < 0 {
        return Err(WireError::Malformed);
    }
    let mut encoder = Encoder::new(max_bytes);
    encoder.bytes(source.object);
    let mut locator = encoder.nested();
    locator.i64(source.pool);
    locator.i32(-1);
    locator.bytes(source.locator);
    locator.bytes(source.namespace);
    locator.i64(-1);
    assert(locator@ =~= super::messages::locator_payload(
        source.pool,
        source.locator@,
        source.namespace@,
    ));
    encoder.versioned(6, 3, locator);
    if let Some((sequence, size)) = truncate {
        encoder.u32(sequence);
        encoder.u64(size);
    }
    assert(encoder@ =~= copy_bytes(*source, truncate));
    encoder.finish()
}

// ---------------------------------------------------------------------------
// Sparse reads
// ---------------------------------------------------------------------------

/// The length of all ranges.
pub open spec fn total_length(ranges: Seq<(u64, u64)>) -> nat
    decreases ranges.len(),
{
    if ranges.len() == 0 {
        0
    } else {
        total_length(ranges.drop_last()) + ranges.last().1 as nat
    }
}

/// Where the last range ends, or `start` if there is none.
pub open spec fn last_end(ranges: Seq<(u64, u64)>, start: u64) -> int {
    if ranges.len() == 0 {
        start as int
    } else {
        ranges.last().0 + ranges.last().1
    }
}

/// The next `count` ranges, each an offset and a length. They ascend, do not overlap, are not
/// empty and stay between `start` and `end`.
pub open spec fn get_ranges(d: Input, count: nat, start: u64, end: u64) -> Result<
    (Seq<(u64, u64)>, Input),
    WireError,
>
    decreases count,
{
    if count == 0 {
        Ok((Seq::empty(), d))
    } else {
        match get_ranges(d, (count - 1) as nat, start, end) {
            Err(error) => Err(error),
            Ok((ranges, d1)) => {
                let (offset, d2) = get_u64(d1);
                let (length, d3) = get_u64(d2);
                if offset + length > u64::MAX {
                    Err(WireError::Malformed)
                } else if length > usize::MAX {
                    Err(WireError::LimitExceeded)
                } else if length == 0 || offset < start || offset < last_end(ranges, start)
                    || offset + length > end {
                    Err(WireError::Malformed)
                } else if total_length(ranges) + length > usize::MAX {
                    Err(WireError::LimitExceeded)
                } else {
                    Ok((ranges.push((offset, length)), d3))
                }
            },
        }
    }
}

proof fn lemma_ranges_error(d: Input, part: nat, count: nat, start: u64, end: u64)
    requires
        part <= count,
        get_ranges(d, part, start, end) is Err,
    ensures
        get_ranges(d, count, start, end) == get_ranges(d, part, start, end),
    decreases count,
{
    if part < count {
        lemma_ranges_error(d, part, (count - 1) as nat, start, end);
    }
}

/// The bytes of each range, taken off `bytes` one after the other.
pub open spec fn cut(ranges: Seq<(u64, u64)>, bytes: Seq<u8>) -> Seq<SparseExtentView> {
    Seq::new(
        ranges.len(),
        |i: int|
            SparseExtentView {
                offset: ranges[i].0,
                data: bytes.subrange(
                    total_length(ranges.take(i)) as int,
                    total_length(ranges.take(i + 1)) as int,
                ),
            },
    )
}

/// What `decode_sparse_read` yields: the parts of what was asked for that hold data.
pub open spec fn sparse_decoding(
    data: Seq<u8>,
    offset: u64,
    length: u64,
    max_bytes: nat,
    max_extents: nat,
) -> Result<Seq<SparseExtentView>, WireError> {
    let (count, d1) = get_u32(limited_input(data, max_bytes));
    if offset + length > u64::MAX {
        Err(WireError::Malformed)
    } else if finished(d1) is Err {
        Err(finished(d1)->Err_0)
    } else if count > max_extents || count * 16 > d1.rest.len() {
        Err(WireError::LimitExceeded)
    } else {
        match get_ranges(d1, count as nat, offset, (offset + length) as u64) {
            Err(error) => Err(error),
            Ok((ranges, d2)) => {
                let (bytes, d3) = get_bytes(d2);
                if finished(d3) is Err {
                    Err(finished(d3)->Err_0)
                } else if d3.rest.len() != 0 || bytes.len() != total_length(ranges) {
                    Err(WireError::Malformed)
                } else {
                    Ok(cut(ranges, bytes))
                }
            },
        }
    }
}

fn decode_ranges(decoder: &mut Decoder<'_>, count: u32, start: u64, end: u64) -> (r: Result<
    (Vec<(u64, usize)>, usize),
    WireError,
>)
    ensures
        r matches Ok(found) ==> get_ranges(old(decoder)@, count as nat, start, end) == Ok::<
            (Seq<(u64, u64)>, Input),
            WireError,
        >((widened(found.0@), final(decoder)@)) && found.1 == total_length(widened(found.0@)),
        r matches Err(error) ==> get_ranges(old(decoder)@, count as nat, start, end) == Err::<
            (Seq<(u64, u64)>, Input),
            WireError,
        >(error),
{
    let ghost from = decoder@;
    let mut ranges: Vec<(u64, usize)> = Vec::new();
    let mut total: usize = 0;
    let mut previous_end: u64 = start;
    let mut i: u32 = 0;
    assert(widened(ranges@) =~= Seq::empty());
    while i < count
        invariant
            i <= count,
            from == old(decoder)@,
            previous_end == last_end(widened(ranges@), start),
            total == total_length(widened(ranges@)),
            get_ranges(from, i as nat, start, end) == Ok::<(Seq<(u64, u64)>, Input), WireError>(
                (widened(ranges@), decoder@),
            ),
        decreases count - i,
    {
        let ghost before = widened(ranges@);
        let offset: u64 = decoder.u64();
        let length: u64 = decoder.u64();
        proof {
            if get_ranges(from, (i + 1) as nat, start, end) is Err {
                lemma_ranges_error(from, (i + 1) as nat, count as nat, start, end);
            }
        }
        let range_end: u64 = match offset.checked_add(length) {
            Some(range_end) => range_end,
            None => {
                return Err(WireError::Malformed);
            },
        };
        if length > usize::MAX as u64 {
            return Err(WireError::LimitExceeded);
        }
        if length == 0 || offset < start || offset < previous_end || range_end > end {
            return Err(WireError::Malformed);
        }
        total = match total.checked_add(length as usize) {
            Some(total) => total,
            None => {
                return Err(WireError::LimitExceeded);
            },
        };
        previous_end = range_end;
        ranges.push((offset, length as usize));
        proof {
            let after = widened(ranges@);
            assert(after =~= before.push((offset, length)));
            assert(after.drop_last() =~= before);
        }
        i = i + 1;
    }
    Ok((ranges, total))
}

/// Ranges with lengths of a fixed size.
pub open spec fn widened(ranges: Seq<(u64, usize)>) -> Seq<(u64, u64)> {
    Seq::new(ranges.len(), |i: int| (ranges[i].0, ranges[i].1 as u64))
}

proof fn lemma_total_grows(ranges: Seq<(u64, u64)>, n: int)
    requires
        0 <= n <= ranges.len(),
    ensures
        total_length(ranges.take(n)) <= total_length(ranges),
    decreases ranges.len() - n,
{
    if n < ranges.len() {
        lemma_total_grows(ranges, n + 1);
        assert(ranges.take(n + 1).drop_last() =~= ranges.take(n));
    } else {
        assert(ranges.take(n) =~= ranges);
    }
}

fn cut_extents(ranges: &Vec<(u64, usize)>, bytes: &[u8]) -> (r: Vec<SparseExtent>)
    requires
        bytes@.len() == total_length(widened(ranges@)),
    ensures
        extents_view(r@) == cut(widened(ranges@), bytes@),
{
    let ghost all = widened(ranges@);
    let size: usize = bytes.len();
    let mut extents: Vec<SparseExtent> = Vec::new();
    let mut cursor: usize = 0;
    let mut i: usize = 0;
    assert(all.take(0) =~= Seq::empty());
    while i < ranges.len()
        invariant
            i <= ranges@.len(),
            all == widened(ranges@),
            size == total_length(all),
            bytes@.len() == size,
            cursor == total_length(all.take(i as int)),
            extents@.len() == i,
            forall|j: int| 0 <= j < i ==> (#[trigger] extents@[j])@ == cut(all, bytes@)[j],
        decreases ranges@.len() - i,
    {
        proof {
            lemma_total_grows(all, i + 1);
            assert(all.take(i + 1).drop_last() =~= all.take(i as int));
        }
        let end: usize = cursor + ranges[i].1;
        let part = slice_subrange(bytes, cursor, end);
        extents.push(SparseExtent { offset: ranges[i].0, data: slice_to_vec(part) });
        cursor = end;
        i = i + 1;
    }
    assert(extents_view(extents@) =~= cut(all, bytes@));
    extents
}

pub fn decode_sparse_read(
    data: &[u8],
    request_offset: u64,
    request_length: u64,
    max_bytes: usize,
    max_extents: usize,
) -> (r: Result<Vec<SparseExtent>, WireError>)
    ensures
        r matches Ok(extents) ==> sparse_decoding(
            data@,
            request_offset,
            request_length,
            max_bytes as nat,
            max_extents as nat,
        ) == Ok::<Seq<SparseExtentView>, WireError>(extents_view(extents@)),
        r matches Err(error) ==> sparse_decoding(
            data@,
            request_offset,
            request_length,
            max_bytes as nat,
            max_extents as nat,
        ) == Err::<Seq<SparseExtentView>, WireError>(error),
{
    let request_end: u64 = match request_offset.checked_add(request_length) {
        Some(end) => end,
        None => {
            return Err(WireError::Malformed);
        },
    };
    let mut decoder = Decoder::new(data, max_bytes);
    let count: u32 = decoder.u32();
    decoder.finish()?;
    if count as usize > max_extents || count as u64 * 16 > decoder.remaining() as u64 {
        return Err(WireError::LimitExceeded);
    }
    let (ranges, total) = decode_ranges(&mut decoder, count, request_offset, request_end)?;
    let bytes = decoder.bytes();
    decoder.finish()?;
    if decoder.remaining() != 0 || bytes.len() != total {
        return Err(WireError::Malformed);
    }
    Ok(cut_extents(&ranges, bytes.as_slice()))
}

/// Extents lie one behind the other in what was asked for, and each holds something.
pub open spec fn in_order(extents: Seq<SparseExtentView>, start: u64, end: int) -> bool {
    &&& forall|i: int|
        0 <= i < extents.len() ==> {
            let e = #[trigger] extents[i];
            start <= e.offset && e.data.len() > 0 && e.offset + e.data.len() <= end
        }
    &&& forall|i: int, j: int|
        0 <= i < j < extents.len() ==> (#[trigger] extents[i]).offset + extents[i].data.len() <= (
        #[trigger] extents[j]).offset
}

proof fn lemma_ranges(d: Input, count: nat, start: u64, end: u64)
    ensures
        get_ranges(d, count, start, end) matches Ok((ranges, _)) ==> {
            &&& ranges.len() == count
            &&& start <= last_end(ranges, start)
            &&& forall|i: int|
                0 <= i < ranges.len() ==> {
                    let r = #[trigger] ranges[i];
                    start <= r.0 && r.1 > 0 && r.0 + r.1 <= end && r.0 + r.1 <= last_end(
                        ranges,
                        start,
                    )
                }
            &&& forall|i: int, j: int|
                0 <= i < j < ranges.len() ==> (#[trigger] ranges[i]).0 + ranges[i].1 <= (
                #[trigger] ranges[j]).0
        },
    decreases count,
{
    if count > 0 {
        lemma_ranges(d, (count - 1) as nat, start, end);
        match (
            get_ranges(d, (count - 1) as nat, start, end),
            get_ranges(d, count, start, end),
        ) {
            (Ok((before, _)), Ok((ranges, _))) => {
                assert(ranges.drop_last() =~= before);
                assert forall|i: int, j: int| 0 <= i < j < ranges.len() implies (
                #[trigger] ranges[i]).0 + ranges[i].1 <= (#[trigger] ranges[j]).0 by {
                    assert(ranges[i] == before[i]);
                    if j < before.len() {
                        assert(ranges[j] == before[j]);
                    }
                }
                assert forall|i: int| 0 <= i < ranges.len() implies {
                    let r = #[trigger] ranges[i];
                    start <= r.0 && r.1 > 0 && r.0 + r.1 <= end && r.0 + r.1 <= last_end(
                        ranges,
                        start,
                    )
                } by {
                    if i < before.len() {
                        assert(ranges[i] == before[i]);
                    }
                }
            },
            _ => {},
        }
    }
}

/// What a sparse read yields lies in what was asked for, in order and without overlap.
pub proof fn law_sparse_extents_are_in_order(
    data: Seq<u8>,
    offset: u64,
    length: u64,
    max_bytes: nat,
    max_extents: nat,
)
    ensures
        sparse_decoding(data, offset, length, max_bytes, max_extents) matches Ok(extents)
            ==> in_order(extents, offset, offset + length) && extents.len() <= max_extents,
{
    match sparse_decoding(data, offset, length, max_bytes, max_extents) {
        Err(_) => {},
        Ok(extents) => {
            let (count, d1) = get_u32(limited_input(data, max_bytes));
            let end = (offset + length) as u64;
            lemma_ranges(d1, count as nat, offset, end);
            let (ranges, d2) = get_ranges(d1, count as nat, offset, end)->Ok_0;
            assert forall|i: int| 0 <= i < extents.len() implies (
            #[trigger] extents[i]).data.len() == ranges[i].1 && extents[i].offset
                == ranges[i].0 by {
                lemma_total_grows(ranges, i + 1);
                assert(ranges.take(i + 1).drop_last() =~= ranges.take(i));
            }
        },
    }
}

// ---------------------------------------------------------------------------
// Checksums
// ---------------------------------------------------------------------------

/// What `validate_checksum` yields: as many checksums of this size as the count says, and nothing
/// more.
pub open spec fn checksum_fault(data: Seq<u8>, checksum_bytes: nat, max_bytes: nat) -> Option<
    WireError,
> {
    let (count, d) = get_u32(limited_input(data, max_bytes));
    if finished(d) is Err {
        Some(finished(d)->Err_0)
    } else if count * checksum_bytes > usize::MAX {
        Some(WireError::LimitExceeded)
    } else if d.rest.len() != count * checksum_bytes {
        Some(WireError::Malformed)
    } else {
        None
    }
}

pub fn validate_checksum(data: &[u8], checksum_bytes: usize, max_bytes: usize) -> (r: Result<
    (),
    WireError,
>)
    ensures
        r matches Ok(_) ==> checksum_fault(data@, checksum_bytes as nat, max_bytes as nat) is None,
        r matches Err(error) ==> checksum_fault(data@, checksum_bytes as nat, max_bytes as nat)
            == Some(error),
{
    let mut decoder = Decoder::new(data, max_bytes);
    let count: u32 = decoder.u32();
    decoder.finish()?;
    let expected: usize = match (count as usize).checked_mul(checksum_bytes) {
        Some(expected) => expected,
        None => {
            return Err(WireError::LimitExceeded);
        },
    };
    if decoder.remaining() != expected {
        return Err(WireError::Malformed);
    }
    Ok(())
}

} // verus!
