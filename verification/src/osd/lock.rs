//! Advisory locks on objects.

use crate::types::Span;
use crate::protocol::address::{address_text, get_address, EntityAddr};
use crate::wire::{
    bounded, bytes_result, finished, get_bytes, get_i64, get_many, get_u32, get_u8, get_versioned,
    is_empty_text, le32, le64, lemma_get_many_error, limited_input, string_from_utf8, text,
    versioned, Decoder, Encoder, Input, WireError,
};
use vstd::prelude::*;
use vstd::utf8::{decode_utf8, valid_utf8};

verus! {

broadcast use crate::wire::group_integers;

/// The kind of entity that clients are.
pub const ENTITY_CLIENT: u8 = 8;

pub const LOCK_EXCLUSIVE: u8 = 1;

pub const LOCK_SHARED: u8 = 2;

pub const LOCK_MAY_RENEW: u8 = 1;

/// A point in time, counted from the beginning of 1970.
#[derive(Clone, Copy, Debug, PartialEq, Eq, Structural)]
pub struct Moment {
    pub seconds: u32,
    pub nanoseconds: u32,
}

/// A lock to take.
pub struct Request<'a> {
    pub name: &'a str,
    pub lock_type: u8,
    pub cookie: &'a str,
    pub tag: &'a str,
    pub description: &'a str,
    pub duration: Span,
    pub renew: bool,
}

/// Who holds a lock. A holder that does not expire has the beginning of time as its expiration.
#[derive(Clone, Debug, PartialEq, Eq)]
pub struct Holder {
    pub client: u64,
    pub cookie: String,
    pub address: String,
    pub description: String,
    pub expiration: Moment,
}

pub struct HolderView {
    pub client: u64,
    pub cookie: Seq<char>,
    pub address: Seq<char>,
    pub description: Seq<char>,
    pub expiration: Moment,
}

impl View for Holder {
    type V = HolderView;

    open spec fn view(&self) -> HolderView {
        HolderView {
            client: self.client,
            cookie: self.cookie@,
            address: self.address@,
            description: self.description@,
            expiration: self.expiration,
        }
    }
}

pub open spec fn holders_view(holders: Seq<Holder>) -> Seq<HolderView> {
    Seq::new(holders.len(), |i: int| holders[i]@)
}

#[derive(Clone, Debug, PartialEq, Eq)]
pub struct Info {
    pub holders: Vec<Holder>,
    pub lock_type: u8,
    pub tag: String,
}

pub struct InfoView {
    pub holders: Seq<HolderView>,
    pub lock_type: u8,
    pub tag: Seq<char>,
}

impl View for Info {
    type V = InfoView;

    open spec fn view(&self) -> InfoView {
        InfoView {
            holders: holders_view(self.holders@),
            lock_type: self.lock_type,
            tag: self.tag@,
        }
    }
}

pub open spec fn lock_names(request: Request<'_>) -> Seq<u8> {
    text(request.name@) + (seq![request.lock_type] + (text(request.cookie@) + (text(request.tag@)
        + text(request.description@))))
}

pub open spec fn lock_terms(request: Request<'_>) -> Seq<u8> {
    le32(request.duration.seconds as u32) + (le32(request.duration.nanoseconds) + seq![
        if request.renew {
            LOCK_MAY_RENEW
        } else {
            0
        },
    ])
}

pub open spec fn lock_payload(request: Request<'_>) -> Seq<u8> {
    lock_names(request) + lock_terms(request)
}

fn encode_lock_names(payload: &mut Encoder, request: &Request<'_>)
    requires
        old(payload).wf(),
    ensures
        final(payload).wf(),
        final(payload).limit() == old(payload).limit(),
        final(payload)@ == old(payload)@ + lock_names(*request),
{
    payload.string(request.name);
    payload.u8(request.lock_type);
    payload.string(request.cookie);
    payload.string(request.tag);
    payload.string(request.description);
    assert(payload@ =~= old(payload)@ + lock_names(*request));
}

fn encode_lock_terms(payload: &mut Encoder, request: &Request<'_>)
    requires
        old(payload).wf(),
        request.duration.seconds <= u32::MAX,
    ensures
        final(payload).wf(),
        final(payload).limit() == old(payload).limit(),
        final(payload)@ == old(payload)@ + lock_terms(*request),
{
    payload.u32(request.duration.seconds as u32);
    payload.u32(request.duration.nanoseconds);
    payload.u8(
        if request.renew {
            LOCK_MAY_RENEW
        } else {
            0
        },
    );
    assert(payload@ =~= old(payload)@ + lock_terms(*request));
}

/// The payload that takes a lock.
pub fn encode_lock(request: &Request<'_>, max_bytes: usize) -> (r: Result<Vec<u8>, WireError>)
    requires
        request.duration.wf(),
    ensures
        bytes_result(r) == if request.name@.len() == 0 || request.cookie@.len() == 0 || (
        request.lock_type != LOCK_EXCLUSIVE && request.lock_type != LOCK_SHARED)
            || request.duration.seconds > u32::MAX {
            Err(WireError::Malformed)
        } else {
            bounded(versioned(1, 1, lock_payload(*request)), max_bytes as nat)
        },
{
    if is_empty_text(request.name) || is_empty_text(request.cookie) || (request.lock_type != LOCK_EXCLUSIVE
        && request.lock_type != LOCK_SHARED) || request.duration.seconds > u32::MAX as u64 {
        return Err(WireError::Malformed);
    }
    let mut encoder = Encoder::new(max_bytes);
    let mut payload = encoder.nested();
    encode_lock_names(&mut payload, request);
    encode_lock_terms(&mut payload, request);
    assert(payload@ =~= lock_payload(*request));
    encoder.versioned(1, 1, payload);
    assert(encoder@ =~= versioned(1, 1, lock_payload(*request)));
    encoder.finish()
}

/// The payload that gives a lock back.
pub open spec fn unlock_payload(name: Seq<char>, cookie: Seq<char>) -> Seq<u8> {
    text(name) + text(cookie)
}

pub fn encode_unlock(name: &str, cookie: &str, max_bytes: usize) -> (r: Result<Vec<u8>, WireError>)
    ensures
        bytes_result(r) == if name@.len() == 0 || cookie@.len() == 0 {
            Err(WireError::Malformed)
        } else {
            bounded(versioned(1, 1, unlock_payload(name@, cookie@)), max_bytes as nat)
        },
{
    if is_empty_text(name) || is_empty_text(cookie) {
        return Err(WireError::Malformed);
    }
    let mut encoder = Encoder::new(max_bytes);
    let mut payload = encoder.nested();
    payload.string(name);
    payload.string(cookie);
    assert(payload@ =~= text(name@) + text(cookie@));
    encoder.versioned(1, 1, payload);
    assert(encoder@ =~= versioned(1, 1, text(name@) + text(cookie@)));
    encoder.finish()
}

pub open spec fn break_payload(name: Seq<char>, client: u64, cookie: Seq<char>) -> Seq<u8> {
    text(name) + (seq![ENTITY_CLIENT] + (le64(client) + text(cookie)))
}

/// The payload that takes a lock away from another client.
pub fn encode_break(name: &str, client: u64, cookie: &str, max_bytes: usize) -> (r: Result<
    Vec<u8>,
    WireError,
>)
    ensures
        bytes_result(r) == if name@.len() == 0 || cookie@.len() == 0 || client > i64::MAX {
            Err(WireError::Malformed)
        } else {
            bounded(versioned(1, 1, break_payload(name@, client, cookie@)), max_bytes as nat)
        },
{
    if is_empty_text(name) || is_empty_text(cookie) || client > i64::MAX as u64 {
        return Err(WireError::Malformed);
    }
    let mut encoder = Encoder::new(max_bytes);
    let mut payload = encoder.nested();
    payload.string(name);
    payload.u8(ENTITY_CLIENT);
    payload.i64(client as i64);
    payload.string(cookie);
    assert(payload@ =~= break_payload(name@, client, cookie@));
    encoder.versioned(1, 1, payload);
    assert(encoder@ =~= versioned(1, 1, break_payload(name@, client, cookie@)));
    encoder.finish()
}

/// The payload that asks who holds a lock.
pub fn encode_get_info(name: &str, max_bytes: usize) -> (r: Result<Vec<u8>, WireError>)
    ensures
        bytes_result(r) == if name@.len() == 0 {
            Err(WireError::Malformed)
        } else {
            bounded(versioned(1, 1, text(name@)), max_bytes as nat)
        },
{
    if is_empty_text(name) {
        return Err(WireError::Malformed);
    }
    let mut encoder = Encoder::new(max_bytes);
    let mut payload = encoder.nested();
    payload.string(name);
    assert(payload@ =~= text(name@));
    encoder.versioned(1, 1, payload);
    assert(encoder@ =~= versioned(1, 1, text(name@)));
    encoder.finish()
}

// ---------------------------------------------------------------------------
// Decoding
// ---------------------------------------------------------------------------

/// The next text, which must be valid at once.
pub open spec fn get_strict(d: Input) -> Result<(Seq<char>, Input), WireError> {
    let (bytes, d1) = get_bytes(d);
    if valid_utf8(bytes) {
        Ok((decode_utf8(bytes), d1))
    } else {
        Err(WireError::Malformed)
    }
}

/// The client and the cookie of a holder.
#[verifier::opaque]
pub open spec fn holder_identity(d: Input) -> Result<(u64, Seq<char>), WireError> {
    let (kind, d1) = get_u8(d);
    let (client, d2) = get_i64(d1);
    if kind != ENTITY_CLIENT {
        Err(WireError::Malformed)
    } else {
        match get_strict(d2) {
            Err(error) => Err(error),
            Ok((cookie, d3)) => if finished(d3) is Err {
                Err(finished(d3)->Err_0)
            } else if client < 0 || d3.rest.len() != 0 {
                Err(WireError::Malformed)
            } else {
                Ok((client as u64, cookie))
            },
        }
    }
}

/// The expiration, the address and the description of a holder.
#[verifier::opaque]
pub open spec fn holder_info(d: Input) -> Result<(Moment, Seq<char>, Seq<char>), WireError> {
    let (seconds, d1) = get_u32(d);
    let (nanoseconds, d2) = get_u32(d1);
    if nanoseconds >= 1_000_000_000 {
        Err(WireError::Malformed)
    } else {
        match get_address(d2) {
            Err(error) => Err(error),
            Ok((address, d3)) => match get_strict(d3) {
                Err(error) => Err(error),
                Ok((description, d4)) => if finished(d4) is Err {
                    Err(finished(d4)->Err_0)
                } else if d4.rest.len() != 0 {
                    Err(WireError::Malformed)
                } else {
                    Ok((Moment { seconds, nanoseconds }, address_text(address), description))
                },
            },
        }
    }
}

/// The next holder of the input.
#[verifier::opaque]
pub open spec fn get_holder(d: Input) -> Result<(HolderView, Input), WireError> {
    let (identity_version, identity, d1) = get_versioned(d, 1);
    let (info_version, info, d2) = get_versioned(d1, 1);
    if finished(d1) is Err {
        Err(finished(d1)->Err_0)
    } else if identity_version != 1 {
        Err(WireError::Malformed)
    } else {
        match holder_identity(identity) {
            Err(error) => Err(error),
            Ok((client, cookie)) => if finished(d2) is Err {
                Err(finished(d2)->Err_0)
            } else if info_version != 1 {
                Err(WireError::Malformed)
            } else {
                match holder_info(info) {
                    Err(error) => Err(error),
                    Ok((expiration, address, description)) => Ok(
                        (HolderView { client, cookie, address, description, expiration }, d2),
                    ),
                }
            },
        }
    }
}

pub open spec fn holder_decoder() -> spec_fn(Input) -> Result<(HolderView, Input), WireError> {
    |d: Input| get_holder(d)
}

/// What `decode_info` yields. A lock that nobody holds has no type.
pub open spec fn info_decoding(data: Seq<u8>, max_bytes: nat, max_holders: nat) -> Result<
    InfoView,
    WireError,
> {
    let (version, payload, rest) = get_versioned(limited_input(data, max_bytes), 1);
    let (count, d1) = get_u32(payload);
    if finished(rest) is Err {
        Err(finished(rest)->Err_0)
    } else if version != 1 {
        Err(WireError::UnsupportedVersion { local: 1, required: version })
    } else if finished(d1) is Err {
        Err(finished(d1)->Err_0)
    } else if count > max_holders || count * 13 > d1.rest.len() {
        Err(WireError::LimitExceeded)
    } else {
        match get_many(d1, count as nat, holder_decoder()) {
            Err(error) => Err(error),
            Ok((holders, d2)) => {
                let (lock_type, d3) = get_u8(d2);
                match get_strict(d3) {
                    Err(error) => Err(error),
                    Ok((tag, d4)) => if finished(d4) is Err {
                        Err(finished(d4)->Err_0)
                    } else if d4.rest.len() != 0 || (lock_type != 0 && lock_type != LOCK_EXCLUSIVE
                        && lock_type != LOCK_SHARED) || (lock_type == 0 && holders.len() != 0) {
                        Err(WireError::Malformed)
                    } else {
                        Ok(InfoView { holders, lock_type, tag })
                    },
                }
            },
        }
    }
}

fn strict_string(decoder: &mut Decoder<'_>) -> (r: Result<String, WireError>)
    ensures
        r matches Ok(value) ==> get_strict(old(decoder)@) == Ok::<(Seq<char>, Input), WireError>(
            (value@, final(decoder)@),
        ),
        r matches Err(error) ==> get_strict(old(decoder)@) == Err::<
            (Seq<char>, Input),
            WireError,
        >(error),
{
    let bytes = decoder.bytes();
    match string_from_utf8(bytes) {
        Some(value) => Ok(value),
        None => Err(WireError::Malformed),
    }
}

fn decode_identity(identity: &mut Decoder<'_>) -> (r: Result<(u64, String), WireError>)
    ensures
        r matches Ok(found) ==> holder_identity(old(identity)@) == Ok::<
            (u64, Seq<char>),
            WireError,
        >((found.0, found.1@)),
        r matches Err(error) ==> holder_identity(old(identity)@) == Err::<
            (u64, Seq<char>),
            WireError,
        >(error),
{
    reveal(holder_identity);
    let kind: u8 = identity.u8();
    if kind != ENTITY_CLIENT {
        return Err(WireError::Malformed);
    }
    let client: i64 = identity.i64();
    let cookie = strict_string(identity)?;
    identity.finish()?;
    if client < 0 || identity.remaining() != 0 {
        return Err(WireError::Malformed);
    }
    Ok((client as u64, cookie))
}

fn decode_holder_info(info: &mut Decoder<'_>) -> (r: Result<(Moment, String, String), WireError>)
    ensures
        r matches Ok(found) ==> holder_info(old(info)@) == Ok::<
            (Moment, Seq<char>, Seq<char>),
            WireError,
        >((found.0, found.1@, found.2@)),
        r matches Err(error) ==> holder_info(old(info)@) == Err::<
            (Moment, Seq<char>, Seq<char>),
            WireError,
        >(error),
{
    reveal(holder_info);
    let seconds: u32 = info.u32();
    let nanoseconds: u32 = info.u32();
    if nanoseconds >= 1_000_000_000 {
        return Err(WireError::Malformed);
    }
    let address = EntityAddr::decode(info)?;
    let description = strict_string(info)?;
    info.finish()?;
    if info.remaining() != 0 {
        return Err(WireError::Malformed);
    }
    Ok((Moment { seconds, nanoseconds }, address.endpoint_text(), description))
}

fn decode_holder(decoder: &mut Decoder<'_>) -> (r: Result<Holder, WireError>)
    ensures
        r matches Ok(holder) ==> get_holder(old(decoder)@) == Ok::<
            (HolderView, Input),
            WireError,
        >((holder@, final(decoder)@)),
        r matches Err(error) ==> get_holder(old(decoder)@) == Err::<
            (HolderView, Input),
            WireError,
        >(error),
{
    reveal(get_holder);
    let (identity_version, mut identity) = decoder.versioned(1);
    decoder.finish()?;
    if identity_version != 1 {
        return Err(WireError::Malformed);
    }
    let (client, cookie) = decode_identity(&mut identity)?;
    let (info_version, mut info) = decoder.versioned(1);
    decoder.finish()?;
    if info_version != 1 {
        return Err(WireError::Malformed);
    }
    let (expiration, address, description) = decode_holder_info(&mut info)?;
    Ok(Holder { client, cookie, address, description, expiration })
}

fn decode_holders(decoder: &mut Decoder<'_>, count: u32) -> (r: Result<Vec<Holder>, WireError>)
    ensures
        r matches Ok(items) ==> get_many(old(decoder)@, count as nat, holder_decoder()) == Ok::<
            (Seq<HolderView>, Input),
            WireError,
        >((holders_view(items@), final(decoder)@)),
        r matches Err(error) ==> get_many(old(decoder)@, count as nat, holder_decoder()) == Err::<
            (Seq<HolderView>, Input),
            WireError,
        >(error),
{
    let ghost start = decoder@;
    let ghost decode = holder_decoder();
    let mut items: Vec<Holder> = Vec::new();
    let mut i: u32 = 0;
    assert(holders_view(items@) =~= Seq::<HolderView>::empty());
    while i < count
        invariant
            i <= count,
            start == old(decoder)@,
            decode == holder_decoder(),
            get_many(start, i as nat, decode) == Ok::<(Seq<HolderView>, Input), WireError>(
                (holders_view(items@), decoder@),
            ),
        decreases count - i,
    {
        let ghost before = holders_view(items@);
        proof {
            if get_many(start, (i + 1) as nat, decode) is Err {
                lemma_get_many_error(start, (i + 1) as nat, count as nat, decode);
            }
        }
        let holder = decode_holder(decoder)?;
        items.push(holder);
        assert(holders_view(items@) =~= before.push(holder@));
        i = i + 1;
    }
    Ok(items)
}

pub fn decode_info(data: &[u8], max_bytes: usize, max_holders: usize) -> (r: Result<
    Info,
    WireError,
>)
    ensures
        r matches Ok(info) ==> info_decoding(data@, max_bytes as nat, max_holders as nat) == Ok::<
            InfoView,
            WireError,
        >(info@),
        r matches Err(error) ==> info_decoding(data@, max_bytes as nat, max_holders as nat)
            == Err::<InfoView, WireError>(error),
{
    let mut decoder = Decoder::new(data, max_bytes);
    let (version, mut payload) = decoder.versioned(1);
    decoder.finish()?;
    if version != 1 {
        return Err(WireError::UnsupportedVersion { local: 1, required: version });
    }
    let count: u32 = payload.u32();
    payload.finish()?;
    if count as usize > max_holders || count as u64 * 13 > payload.remaining() as u64 {
        return Err(WireError::LimitExceeded);
    }
    let holders = decode_holders(&mut payload, count)?;
    let lock_type: u8 = payload.u8();
    let tag = strict_string(&mut payload)?;
    payload.finish()?;
    if payload.remaining() != 0 || (lock_type != 0 && lock_type != LOCK_EXCLUSIVE && lock_type
        != LOCK_SHARED) || (lock_type == 0 && holders.len() != 0) {
        return Err(WireError::Malformed);
    }
    Ok(Info { holders, lock_type, tag })
}

/// Nobody holds a lock without a type, and every holder expires at a valid time.
pub proof fn law_lock_info_is_consistent(data: Seq<u8>, max_bytes: nat, max_holders: nat)
    ensures
        info_decoding(data, max_bytes, max_holders) matches Ok(info) ==> {
            &&& info.lock_type == 0 ==> info.holders.len() == 0
            &&& info.lock_type == 0 || info.lock_type == LOCK_EXCLUSIVE || info.lock_type
                == LOCK_SHARED
            &&& info.holders.len() <= max_holders
            &&& forall|i: int|
                0 <= i < info.holders.len() ==> (#[trigger] info.holders[i]).expiration.nanoseconds
                    < 1_000_000_000
        },
{
    let (version, payload, rest) = get_versioned(limited_input(data, max_bytes), 1);
    let (count, d1) = get_u32(payload);
    lemma_holders(d1, count as nat);
}

proof fn lemma_holders(d: Input, count: nat)
    ensures
        get_many(d, count, holder_decoder()) matches Ok((holders, _)) ==> {
            &&& holders.len() == count
            &&& forall|i: int|
                0 <= i < holders.len() ==> (#[trigger] holders[i]).expiration.nanoseconds
                    < 1_000_000_000
        },
    decreases count,
{
    if count > 0 {
        lemma_holders(d, (count - 1) as nat);
        reveal(get_holder);
        reveal(holder_info);
    }
}

// ---------------------------------------------------------------------------
// Views
// ---------------------------------------------------------------------------

/// What stands for a value of this type has its fields.
pub proof fn law_holder_has_its_fields(x: Holder)
    ensures
        x@.client == x.client,
        x@.cookie == x.cookie@,
        x@.address == x.address@,
        x@.description == x.description@,
        x@.expiration == x.expiration,
{
}

/// What stands for a value of this type has its fields.
pub proof fn law_info_has_its_fields(x: Info)
    ensures
        x@.holders == (holders_view(x.holders@)),
        x@.lock_type == x.lock_type,
        x@.tag == x.tag@,
{
}

/// What stands for a list has what stands for each of its items, in order.
pub proof fn law_holders_view_keeps_order(holders: Seq<Holder>, i: int)
    requires
        0 <= i < holders.len(),
    ensures
        holders_view(holders).len() == holders.len(),
        holders_view(holders)[i] == holders[i]@,
{
}

} // verus!
