//! Listings that come in pages.

use crate::osd::backoff::HObject;
use crate::osd::client::{map_wire_error, wire_failure, CompoundResult, CompoundView, Error};
use crate::osd::enumeration::{decode_page, encode_operation, listing, page_decoding, ListPage};
use crate::osd::inconsistent::{
    decode_scrub_list, encode_scrub_list, objects_view, scrub_decoding, scrub_encoding,
    InconsistentObject, InconsistentView,
};
use crate::osd::messages::Operation;
use crate::wire::same_bytes;
use vstd::prelude::*;

verus! {

/// How many objects a page of inconsistent objects is asked to have.
pub const SCRUB_PAGE_SIZE: u64 = 1024;

/// A listing of inconsistent objects: the interval that it is of, the object that the next page
/// starts behind, how many there may be, and those that have come.
#[derive(Debug)]
pub struct InconsistentPager {
    pub interval: u32,
    pub start: InconsistentObject,
    pub maximum: u64,
    pub result: Vec<InconsistentObject>,
}

#[verifier::ext_equal]
pub struct PagerView {
    pub interval: u32,
    pub start: InconsistentView,
    pub maximum: u64,
    pub result: Seq<InconsistentView>,
}

impl View for InconsistentPager {
    type V = PagerView;

    open spec fn view(&self) -> PagerView {
        PagerView {
            interval: self.interval,
            start: self.start@,
            maximum: self.maximum,
            result: objects_view(self.result@),
        }
    }
}

/// Before the first page.
pub open spec fn first_page(maximum: u64) -> PagerView {
    PagerView {
        interval: 0,
        start: InconsistentView {
            object: Seq::empty(),
            namespace: Seq::empty(),
            locator: Seq::empty(),
            snapshot: 0,
            shards: Seq::empty(),
            errors: Seq::empty(),
        },
        maximum,
        result: Seq::empty(),
    }
}

/// Whether two objects are the same one, whatever is wrong with them.
pub open spec fn same_object(a: InconsistentView, b: InconsistentView) -> bool {
    a.object == b.object && a.namespace == b.namespace && a.locator == b.locator && a.snapshot
        == b.snapshot
}

/// A number of objects, or the largest number.
pub open spec fn counted(count: nat) -> nat {
    if count > u64::MAX {
        u64::MAX as nat
    } else {
        count
    }
}

/// The listing after a page, and whether it was the last. A page of another interval, one too many,
/// or one that ends where it started is refused.
pub open spec fn paging(p: PagerView, interval: u32, page: Seq<InconsistentView>) -> (
    PagerView,
    Result<bool, Error>,
) {
    let joined = PagerView { interval, result: p.result + page, ..p };
    if p.interval != 0 && p.interval != interval {
        (p, Err(Error::WireErrno((-11int) as i32)))
    } else if counted(p.result.len() + page.len()) > p.maximum {
        (PagerView { interval, ..p }, Err(Error::LimitExceeded))
    } else if page.len() < SCRUB_PAGE_SIZE {
        (joined, Ok(true))
    } else if same_object(page.last(), p.start) {
        (joined, Err(Error::MalformedReply))
    } else {
        (PagerView { start: page.last(), ..joined }, Ok(false))
    }
}

impl InconsistentPager {
    pub fn new(maximum: u64) -> (r: Self)
        ensures
            r@ == first_page(maximum),
    {
        let r = InconsistentPager {
            interval: 0,
            start: InconsistentObject::default(),
            maximum,
            result: Vec::new(),
        };
        assert(r@ =~= first_page(maximum));
        r
    }

    /// Takes a page, and says whether it was the last.
    pub fn push(&mut self, next_interval: u32, page: Vec<InconsistentObject>) -> (r: Result<
        bool,
        Error,
    >)
        ensures
            (final(self)@, r) == paging(old(self)@, next_interval, objects_view(page@)),
    {
        let ghost objects = objects_view(page@);
        if self.interval != 0 && self.interval != next_interval {
            return Err(Error::WireErrno(-11));
        }
        self.interval = next_interval;
        let page_len: u64 = page.len() as u64;
        if (self.result.len() as u64).saturating_add(page_len) > self.maximum {
            return Err(Error::LimitExceeded);
        }
        let next: Option<InconsistentObject> = if page.len() > 0 {
            Some(page[page.len() - 1].clone())
        } else {
            None
        };
        let mut page = page;
        let ghost before = self.result@;
        let ghost pages = page@;
        self.result.append(&mut page);
        assert(objects_view(self.result@) =~= objects_view(before) + objects) by {
            assert(self.result@ =~= before + pages);
        }
        if page_len < SCRUB_PAGE_SIZE {
            return Ok(true);
        }
        match next {
            None => Err(Error::MalformedReply),
            Some(next) => {
                assert(next@ == objects.last());
                if same_bytes(next.object.as_slice(), self.start.object.as_slice()) && same_bytes(
                    next.namespace.as_slice(),
                    self.start.namespace.as_slice(),
                ) && same_bytes(next.locator.as_slice(), self.start.locator.as_slice())
                    && next.snapshot == self.start.snapshot {
                    return Err(Error::MalformedReply);
                }
                self.start = next;
                Ok(false)
            },
        }
    }

    /// The operation that asks for the next page.
    pub fn request(&self, max_bytes: u32) -> (r: Result<Operation, Error>)
        ensures
            match scrub_encoding(self@.interval, self@.start, SCRUB_PAGE_SIZE, max_bytes) {
                Ok(operation) => r matches Ok(given) && given@ == operation,
                Err(error) => r == Err::<Operation, Error>(wire_failure(error)),
            },
    {
        match encode_scrub_list(self.interval, &self.start, SCRUB_PAGE_SIZE, max_bytes) {
            Ok(operation) => Ok(operation),
            Err(error) => Err(map_wire_error(error)),
        }
    }

    /// Takes the result of such an operation, and says whether it held the last page.
    pub fn answer(&mut self, result: &CompoundResult, max_bytes: u32) -> (r: Result<bool, Error>)
        ensures
            (final(self)@, r) == answering(old(self)@, result@, max_bytes),
    {
        if result.operations.len() == 0 {
            return Err(Error::MalformedReply);
        }
        match decode_scrub_list(
            result.operations[0].data.as_slice(),
            max_bytes,
            max_bytes / 12,
        ) {
            Ok((interval, page)) => self.push(interval, page),
            Err(error) => Err(map_wire_error(error)),
        }
    }
}

/// The listing after the result of an operation that asked for a page. An entry takes twelve bytes
/// at least.
pub open spec fn answering(p: PagerView, result: CompoundView, max_bytes: u32) -> (
    PagerView,
    Result<bool, Error>,
) {
    if result.operations.len() == 0 {
        (p, Err(Error::MalformedReply))
    } else {
        match scrub_decoding(result.operations[0].data, max_bytes, max_bytes / 12) {
            Ok((interval, page)) => paging(p, interval, page),
            Err(error) => (p, Err(wire_failure(error))),
        }
    }
}

/// A listing of inconsistent objects that come in messages of at most this size.
pub fn list_inconsistent_objects(max_bytes: u32) -> (r: Result<InconsistentPager, Error>)
    ensures
        match r {
            Ok(pager) => max_bytes >= 12 && pager@ == first_page((max_bytes / 12) as u64),
            Err(error) => max_bytes < 12 && error == Error::LimitExceeded,
        },
{
    let maximum: u64 = (max_bytes / 12) as u64;
    if maximum == 0 {
        return Err(Error::LimitExceeded);
    }
    Ok(InconsistentPager::new(maximum))
}

/// The operation that lists objects from a cursor on.
pub fn list_objects(cursor: &HObject, count: u64, epoch: u32, max_bytes: u32) -> (r: Result<
    Operation,
    Error,
>)
    ensures
        match listing(cursor@, count, epoch, max_bytes as nat) {
            Ok(operation) => r matches Ok(given) && given@ == operation,
            Err(error) => r == Err::<Operation, Error>(wire_failure(error)),
        },
{
    match encode_operation(cursor, count, epoch, max_bytes as usize) {
        Ok(operation) => Ok(operation),
        Err(error) => Err(map_wire_error(error)),
    }
}

/// The page that the result of such an operation holds.
pub fn listed_objects(result: &CompoundResult, max_bytes: u32) -> (r: Result<ListPage, Error>)
    ensures
        if result@.operations.len() == 0 {
            r == Err::<ListPage, Error>(Error::MalformedReply)
        } else {
            match page_decoding(
                result@.operations[0].data,
                max_bytes as nat,
                (max_bytes / 12) as nat,
            ) {
                Ok(page) => r matches Ok(given) && given@ == page,
                Err(error) => r == Err::<ListPage, Error>(wire_failure(error)),
            }
        },
{
    if result.operations.len() == 0 {
        return Err(Error::MalformedReply);
    }
    match decode_page(
        result.operations[0].data.as_slice(),
        max_bytes as usize,
        max_bytes as usize / 12,
    ) {
        Ok(page) => Ok(page),
        Err(error) => Err(map_wire_error(error)),
    }
}

/// A listing stays within its bound and keeps what it has, and one that goes on has grown by a
/// whole page, so that it ends.
pub proof fn law_listing_is_bounded(p: PagerView, interval: u32, page: Seq<InconsistentView>)
    requires
        p.result.len() <= p.maximum < u64::MAX,
    ensures
        paging(p, interval, page).0.result.len() <= p.maximum,
        p.result.is_prefix_of(paging(p, interval, page).0.result),
        paging(p, interval, page).1 == Ok::<bool, Error>(false) ==> paging(
            p,
            interval,
            page,
        ).0.result.len() >= p.result.len() + SCRUB_PAGE_SIZE,
        paging(p, interval, page).1 is Ok ==> paging(p, interval, page).0.result == p.result
            + page,
{
}

// ---------------------------------------------------------------------------
// Views
// ---------------------------------------------------------------------------

/// What stands for a value of this type has its fields.
pub proof fn law_inconsistent_pager_has_its_fields(x: InconsistentPager)
    ensures
        x@.interval == x.interval,
        x@.start == x.start@,
        x@.maximum == x.maximum,
        x@.result == (objects_view(x.result@)),
{
}

} // verus!
