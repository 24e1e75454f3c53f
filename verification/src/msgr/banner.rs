//! The first bytes that each side of a connection sends.

use super::frame::{FrameError, Reader};
use crate::wire::{from_le16, from_le64, le16, le64, push_le16, push_le64, read_le16, read_le64, same_bytes};
use vstd::prelude::*;
use vstd::slice::slice_subrange;

verus! {

broadcast use crate::wire::group_integers;

pub const BANNER_HEADER_SIZE: usize = 10;

pub const BANNER_PAYLOAD_SIZE: u16 = 16;

pub const REVISION_1_FEATURES: u64 = 1;

/// The text `ceph v2` and a line feed.
pub open spec fn banner_prefix() -> Seq<u8> {
    seq![0x63u8, 0x65, 0x70, 0x68, 0x20, 0x76, 0x32, 0x0a]
}

/// The messenger features that a side supports, and those that it requires of its peer.
#[derive(Clone, Copy, Debug, PartialEq, Eq, Structural)]
pub struct Banner {
    pub supported: u64,
    pub required: u64,
}

/// A banner on the wire.
pub open spec fn banner_bytes(banner: Banner) -> Seq<u8> {
    banner_prefix() + (le16(BANNER_PAYLOAD_SIZE) + (le64(banner.supported) + le64(
        banner.required,
    )))
}

/// The size of the payload that a banner header announces. A payload may be longer than the two
/// feature sets, up to `max_payload`.
pub open spec fn banner_payload(header: Seq<u8>, max_payload: u16) -> Result<nat, FrameError> {
    let size = from_le16(header.subrange(8, 10));
    if header.take(8) != banner_prefix() {
        Err(FrameError::Malformed)
    } else if size < BANNER_PAYLOAD_SIZE {
        Err(FrameError::Malformed)
    } else if size > max_payload {
        Err(FrameError::LimitExceeded)
    } else {
        Ok(size as nat)
    }
}

/// The banner at the front of `data`, and what comes behind it.
pub open spec fn banner_decoding(data: Seq<u8>, max_payload: u16) -> Result<
    (Banner, Seq<u8>),
    FrameError,
> {
    if data.len() < BANNER_HEADER_SIZE {
        Err(FrameError::Malformed)
    } else {
        let rest = data.skip(BANNER_HEADER_SIZE as int);
        match banner_payload(data.take(BANNER_HEADER_SIZE as int), max_payload) {
            Err(error) => Err(error),
            Ok(size) => if rest.len() < size {
                Err(FrameError::Malformed)
            } else {
                Ok(
                    (
                        Banner {
                            supported: from_le64(rest.subrange(0, 8)),
                            required: from_le64(rest.subrange(8, 16)),
                        },
                        rest.skip(size as int),
                    ),
                )
            },
        }
    }
}

/// What is left after a banner was read. A header that is refused has been read, and a part that is
/// too short has not.
pub open spec fn banner_left(data: Seq<u8>, max_payload: u16) -> Seq<u8> {
    if data.len() < BANNER_HEADER_SIZE {
        data
    } else {
        let rest = data.skip(BANNER_HEADER_SIZE as int);
        match banner_payload(data.take(BANNER_HEADER_SIZE as int), max_payload) {
            Err(_) => rest,
            Ok(size) => if rest.len() < size {
                rest
            } else {
                rest.skip(size as int)
            },
        }
    }
}

/// The features that two sides have in common, if each has what the other requires.
pub open spec fn negotiated(local: Banner, peer: Banner) -> Result<u64, FrameError> {
    if peer.required & !local.supported != 0 || local.required & !peer.supported != 0 {
        Err(FrameError::UnsupportedFeature)
    } else if (local.supported & peer.supported) & REVISION_1_FEATURES == 0 {
        Err(FrameError::UnsupportedFeature)
    } else {
        Ok(local.supported & peer.supported)
    }
}

fn push_prefix(out: &mut Vec<u8>)
    ensures
        final(out)@ == old(out)@ + banner_prefix(),
{
    out.push(0x63);
    out.push(0x65);
    out.push(0x70);
    out.push(0x68);
    out.push(0x20);
    out.push(0x76);
    out.push(0x32);
    out.push(0x0a);
    assert(out@ =~= old(out)@ + banner_prefix());
}

impl Banner {
    /// The banner of this client.
    pub fn client() -> (r: Self)
        ensures
            r == (Banner { supported: REVISION_1_FEATURES, required: REVISION_1_FEATURES }),
    {
        Banner { supported: REVISION_1_FEATURES, required: REVISION_1_FEATURES }
    }

    pub fn encode(self) -> (r: Vec<u8>)
        ensures
            r@ == banner_bytes(self),
    {
        let mut output: Vec<u8> = Vec::new();
        push_prefix(&mut output);
        push_le16(&mut output, BANNER_PAYLOAD_SIZE);
        push_le64(&mut output, self.supported);
        push_le64(&mut output, self.required);
        assert(output@ =~= banner_bytes(self));
        output
    }

    /// The size of the payload that follows a banner header.
    pub fn payload_size(header: &[u8], max_payload: u16) -> (r: Result<usize, FrameError>)
        requires
            header@.len() == BANNER_HEADER_SIZE,
        ensures
            r matches Ok(size) ==> banner_payload(header@, max_payload) == Ok::<nat, FrameError>(
                size as nat,
            ),
            r matches Err(error) ==> banner_payload(header@, max_payload) == Err::<nat, FrameError>(
                error,
            ),
    {
        let mut prefix: Vec<u8> = Vec::new();
        push_prefix(&mut prefix);
        assert(prefix@ =~= banner_prefix());
        assert(header@.subrange(0, 8) =~= header@.take(8));
        if !same_bytes(slice_subrange(header, 0, 8), prefix.as_slice()) {
            return Err(FrameError::Malformed);
        }
        let size: u16 = read_le16(slice_subrange(header, 8, 10));
        if size < BANNER_PAYLOAD_SIZE {
            return Err(FrameError::Malformed);
        }
        if size > max_payload {
            return Err(FrameError::LimitExceeded);
        }
        Ok(size as usize)
    }

    /// Reads a banner whose payload has at most `max_payload` bytes.
    pub fn read(reader: &mut Reader<'_>, max_payload: u16) -> (r: Result<Self, FrameError>)
        ensures
            r matches Ok(banner) ==> banner_decoding(old(reader)@, max_payload) == Ok::<
                (Banner, Seq<u8>),
                FrameError,
            >((banner, final(reader)@)),
            r matches Err(error) ==> banner_decoding(old(reader)@, max_payload) == Err::<
                (Banner, Seq<u8>),
                FrameError,
            >(error),
            final(reader)@ == banner_left(old(reader)@, max_payload),
    {
        let header = match reader.read_exact(BANNER_HEADER_SIZE) {
            Ok(header) => header,
            Err(error) => {
                return Err(error);
            },
        };
        let size: usize = match Banner::payload_size(header, max_payload) {
            Ok(size) => size,
            Err(error) => {
                return Err(error);
            },
        };
        let ghost rest = reader@;
        let payload = match reader.read_exact(size) {
            Ok(payload) => payload,
            Err(error) => {
                return Err(error);
            },
        };
        assert(payload@.subrange(0, 8) =~= rest.subrange(0, 8));
        assert(payload@.subrange(8, 16) =~= rest.subrange(8, 16));
        Ok(
            Banner {
                supported: read_le64(slice_subrange(payload, 0, 8)),
                required: read_le64(slice_subrange(payload, 8, 16)),
            },
        )
    }

    /// The features to use with a peer.
    pub fn negotiate(self, peer: Self) -> (r: Result<u64, FrameError>)
        ensures
            r == negotiated(self, peer),
    {
        if peer.required & !self.supported != 0 || self.required & !peer.supported != 0 {
            return Err(FrameError::UnsupportedFeature);
        }
        let common: u64 = self.supported & peer.supported;
        if common & REVISION_1_FEATURES == 0 {
            return Err(FrameError::UnsupportedFeature);
        }
        Ok(common)
    }
}

/// Reading a banner that was written gives it back.
pub proof fn law_banner_reads_back(banner: Banner, max_payload: u16, tail: Seq<u8>)
    requires
        max_payload >= BANNER_PAYLOAD_SIZE,
    ensures
        banner_decoding(banner_bytes(banner) + tail, max_payload) == Ok::<
            (Banner, Seq<u8>),
            FrameError,
        >((banner, tail)),
{
    let data = banner_bytes(banner) + tail;
    let header = data.take(BANNER_HEADER_SIZE as int);
    let rest = data.skip(BANNER_HEADER_SIZE as int);
    crate::wire::lemma_le16(BANNER_PAYLOAD_SIZE);
    crate::wire::lemma_le64(banner.supported);
    crate::wire::lemma_le64(banner.required);
    assert(header.take(8) =~= banner_prefix());
    assert(header.subrange(8, 10) =~= le16(BANNER_PAYLOAD_SIZE));
    assert(rest.subrange(0, 8) =~= le64(banner.supported));
    assert(rest.subrange(8, 16) =~= le64(banner.required));
    assert(rest.skip(16) =~= tail);
}

/// Two sides agree on the same features, whichever of them computes the agreement.
pub proof fn law_negotiation_is_symmetric(a: Banner, b: Banner)
    ensures
        negotiated(a, b) == negotiated(b, a),
{
    let x = a.supported;
    let y = b.supported;
    assert(x & y == y & x) by (bit_vector);
}

} // verus!
