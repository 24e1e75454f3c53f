//! Where the parts of banners and frames stand, and what a frame that is accepted has shown.

use super::banner::{banner_bytes, banner_decoding, negotiated, Banner};
use super::frame::{
    crc_decoding, descriptor_at, descriptors_in, descriptors_of, power_of_two, preamble_bytes,
    segments_in, tag_code, tag_of, Descriptor, FrameError, Limits, SegmentView, Tag,
};
use super::secure::{
    advanced, filled, later_in, next_nonce, padded, padded_segments, plain_records, receiving,
    segment_in, sending, DirectionView,
};
use crate::wire::{checksum, from_le16, from_le32, from_le64};
use vstd::arithmetic::power::pow;
use vstd::prelude::*;

verus! {

// ---------------------------------------------------------------------------
// Banners
// ---------------------------------------------------------------------------

/// A banner is "ceph v2" and a line feed, the size of what follows, and the features that are
/// supported and required.
pub proof fn law_banner_layout(banner: Banner)
    ensures
        ({
            let b = banner_bytes(banner);
            &&& b.len() == 26
            &&& b.take(8) == seq![0x63u8, 0x65, 0x70, 0x68, 0x20, 0x76, 0x32, 0x0a]
            &&& b[8] == 16 && b[9] == 0
            &&& from_le64(b.subrange(10, 18)) == banner.supported
            &&& from_le64(b.subrange(18, 26)) == banner.required
        }),
{
    broadcast use crate::wire::group_integers;

    reveal(crate::wire::le16);
    let b = banner_bytes(banner);
    assert(b.take(8) =~= seq![0x63u8, 0x65, 0x70, 0x68, 0x20, 0x76, 0x32, 0x0a]);
    assert(b.subrange(10, 18) =~= crate::wire::le64(banner.supported));
    assert(b.subrange(18, 26) =~= crate::wire::le64(banner.required));
}

/// A banner that is accepted starts as every banner does, and its payload is neither too short nor
/// longer than allowed. What follows its payload is left.
pub proof fn law_accepted_banner_is_one(data: Seq<u8>, max_payload: u16)
    ensures
        banner_decoding(data, max_payload) matches Ok((banner, rest)) ==> {
            &&& data.len() >= 26
            &&& data.take(8) == seq![0x63u8, 0x65, 0x70, 0x68, 0x20, 0x76, 0x32, 0x0a]
            &&& 16 <= data[8] + data[9] * 256 <= max_payload
            &&& rest == data.skip(10 + data[8] + data[9] * 256)
            &&& banner.supported == from_le64(data.subrange(10, 18))
            &&& banner.required == from_le64(data.subrange(18, 26))
        },
{
    if banner_decoding(data, max_payload) is Ok {
        reveal(from_le16);
        let header = data.take(10);
        assert(header.take(8) =~= data.take(8));
        let size = header.subrange(8, 10);
        assert(size[0] == data[8] && size[1] == data[9]);
        let rest = data.skip(10);
        assert(rest.subrange(0, 8) =~= data.subrange(10, 18));
        assert(rest.subrange(8, 16) =~= data.subrange(18, 26));
        let left = data[8] + data[9] * 256;
        assert(rest.skip(left) =~= data.skip(10 + left));
    }
}

/// Whether a feature is in a set of features.
pub open spec fn has_feature(features: u64, i: u64) -> bool {
    (features >> i) & 1 == 1
}

/// Peers that agree use every feature that both support and no other. Each supports whatever the
/// other requires, and both support the first revision.
pub proof fn law_agreed_features_are_shared(local: Banner, peer: Banner, i: u64)
    requires
        i < 64,
    ensures
        negotiated(local, peer) matches Ok(features) ==> {
            &&& has_feature(features, i) <==> has_feature(local.supported, i) && has_feature(
                peer.supported,
                i,
            )
            &&& has_feature(local.required, i) ==> has_feature(peer.supported, i)
            &&& has_feature(peer.required, i) ==> has_feature(local.supported, i)
            &&& has_feature(features, 0)
        },
{
    let (a, b, c, d) = (local.supported, local.required, peer.supported, peer.required);
    assert(((a & c) >> i) & 1 == 1 <==> (a >> i) & 1 == 1 && (c >> i) & 1 == 1) by (bit_vector)
        requires
            i < 64,
    ;
    assert(b & !c == 0 && (b >> i) & 1 == 1 ==> (c >> i) & 1 == 1) by (bit_vector)
        requires
            i < 64,
    ;
    assert(d & !a == 0 && (d >> i) & 1 == 1 ==> (a >> i) & 1 == 1) by (bit_vector)
        requires
            i < 64,
    ;
    assert((a & c) & 1 != 0 ==> ((a & c) >> 0u64) & 1 == 1) by (bit_vector);
}

/// Peers of the first revision agree unless one requires a feature that the other lacks.
pub proof fn law_peers_agree_if_they_can(local: Banner, peer: Banner)
    requires
        forall|i: u64|
            i < 64 && #[trigger] has_feature(local.required, i) ==> has_feature(peer.supported, i),
        forall|i: u64|
            i < 64 && #[trigger] has_feature(peer.required, i) ==> has_feature(local.supported, i),
        has_feature(local.supported, 0),
        has_feature(peer.supported, 0),
    ensures
        negotiated(local, peer) is Ok,
{
    let (a, b, c, d) = (local.supported, local.required, peer.supported, peer.required);
    lemma_features_missing(b, c);
    lemma_features_missing(d, a);
    assert((a >> 0u64) & 1 == 1 && (c >> 0u64) & 1 == 1 ==> (a & c) & 1 != 0) by (bit_vector);
}

proof fn lemma_features_missing(required: u64, supported: u64)
    requires
        forall|i: u64|
            i < 64 && #[trigger] has_feature(required, i) ==> has_feature(supported, i),
    ensures
        required & !supported == 0,
{
    let missing = required & !supported;
    if missing != 0 {
        let i = lemma_first_feature(missing, 64);
        assert(((required & !supported) >> i) & 1 == 1 ==> (required >> i) & 1 == 1 && (supported
            >> i) & 1 != 1) by (bit_vector)
            requires
                i < 64,
        ;
        assert(has_feature(required, i));
    }
}

proof fn lemma_first_feature(features: u64, below: u64) -> (i: u64)
    requires
        features != 0,
        below <= 64,
        below < 64 ==> features >> below == 0,
    ensures
        i < 64,
        has_feature(features, i),
    decreases below,
{
    if below == 0 {
        assert(features >> 0u64 == features) by (bit_vector);
        0
    } else {
        let i = (below - 1) as u64;
        if has_feature(features, i) {
            i
        } else {
            assert((features >> i) & 1 != 1 && (i == 63 || features >> add_one(i) == 0) ==> features
                >> i == 0) by (bit_vector)
                requires
                    i < 64,
            ;
            lemma_first_feature(features, i)
        }
    }
}

spec fn add_one(i: u64) -> u64 {
    (i + 1) as u64
}

// ---------------------------------------------------------------------------
// Frames with checksums
// ---------------------------------------------------------------------------

/// The alignment of a segment is valid if it is a power of two.
pub proof fn law_valid_alignments_are_powers(a: nat)
    ensures
        power_of_two(a) <==> exists|k: nat| a == #[trigger] pow(2, k),
    decreases a,
{
    vstd::arithmetic::power::lemma_pow0(2);
    if a == 0 {
        assert forall|k: nat| 0 != #[trigger] pow(2, k) by {
            vstd::arithmetic::power::lemma_pow_positive(2, k);
        }
    } else if a == 1 {
        assert(pow(2, 0) == 1);
    } else {
        law_valid_alignments_are_powers(a / 2);
        if power_of_two(a) {
            let k = choose|k: nat| a / 2 == #[trigger] pow(2, k);
            vstd::arithmetic::power::lemma_pow1(2);
            vstd::arithmetic::power::lemma_pow_adds(2, 1, k);
            assert(a == pow(2, k + 1));
        }
        if exists|k: nat| a == #[trigger] pow(2, k) {
            let k = choose|k: nat| a == #[trigger] pow(2, k);
            if k > 0 {
                vstd::arithmetic::power::lemma_pow1(2);
                vstd::arithmetic::power::lemma_pow_adds(2, 1, (k - 1) as nat);
                assert(a / 2 == pow(2, (k - 1) as nat));
            }
        }
    }
}

/// A preamble has 32 bytes: the tag, the number of segments, the length and the alignment of each
/// segment, zeros up to the last four bytes, and the checksum of all that is before it.
pub proof fn law_preamble_layout(tag: Tag, descriptors: Seq<Descriptor>)
    requires
        tag_code(tag) <= 20,
        1 <= descriptors.len() <= 4,
        descriptors.len() > 1 ==> descriptors.last().length > 0,
    ensures
        ({
            let p = preamble_bytes(tag, descriptors);
            &&& p.len() == 32
            &&& p[0] == tag_code(tag)
            &&& p[1] == descriptors.len()
            &&& forall|i: int|
                0 <= i < descriptors.len() ==> {
                    let d = #[trigger] descriptors[i];
                    &&& from_le32(p.subrange(2 + 6 * i, 6 + 6 * i)) == d.length
                    &&& from_le16(p.subrange(6 + 6 * i, 8 + 6 * i)) == d.alignment
                }
            &&& forall|i: int| 2 + 6 * descriptors.len() <= i < 28 ==> #[trigger] p[i] == 0
            &&& from_le32(p.subrange(28, 32)) == checksum(0, p.take(28))
        }),
{
    super::frame::law_preamble(tag, descriptors);
    super::frame::lemma_preamble_len(tag, descriptors);
    super::frame::lemma_descriptor_bytes_len(descriptors);
    let p = preamble_bytes(tag, descriptors);
    assert(p.skip(28) =~= p.subrange(28, 32));
    assert forall|i: int| 0 <= i < descriptors.len() implies {
        let d = #[trigger] descriptors[i];
        &&& from_le32(p.subrange(2 + 6 * i, 6 + 6 * i)) == d.length
        &&& from_le16(p.subrange(6 + 6 * i, 8 + 6 * i)) == d.alignment
    } by {
        assert(descriptors_in(p)[i] == descriptor_at(p, i));
    }
}

/// Where a segment stands behind the preamble. A first segment that holds anything has its checksum,
/// of four bytes, behind it.
pub open spec fn segment_start(descriptors: Seq<Descriptor>, i: int) -> int
    decreases i,
{
    if i <= 0 {
        0
    } else {
        segment_start(descriptors, i - 1) + descriptors[i - 1].length + if i == 1
            && descriptors[0].length > 0 {
            4int
        } else {
            0
        }
    }
}

proof fn lemma_start_prefix(descriptors: Seq<Descriptor>, i: int)
    requires
        0 <= i < descriptors.len(),
    ensures
        segment_start(descriptors.drop_last(), i) == segment_start(descriptors, i),
        0 <= segment_start(descriptors, i),
    decreases i,
{
    if i > 0 {
        lemma_start_prefix(descriptors, i - 1);
    }
}

proof fn lemma_segments_in(with_data_crc: bool, descriptors: Seq<Descriptor>, data: Seq<u8>)
    ensures
        segments_in(with_data_crc, descriptors, data) matches Ok((segments, rest)) ==> {
            &&& segments.len() == descriptors.len()
            &&& 0 <= segment_start(descriptors, descriptors.len() as int) <= data.len()
            &&& rest == data.skip(segment_start(descriptors, descriptors.len() as int))
            &&& forall|i: int|
                0 <= i < descriptors.len() ==> {
                    let at = segment_start(descriptors, i);
                    let d = descriptors[i];
                    &&& (#[trigger] segments[i]).alignment == d.alignment
                    &&& 0 <= at && at + d.length <= data.len()
                    &&& segments[i].data == data.subrange(at, at + d.length)
                }
            &&& with_data_crc && descriptors.len() > 0 && descriptors[0].length > 0
                ==> descriptors[0].length + 4 <= data.len() && checksum(u32::MAX, segments[0].data)
                == from_le32(
                data.subrange(descriptors[0].length as int, descriptors[0].length + 4),
            )
        },
    decreases descriptors.len(),
{
    if descriptors.len() > 0 && segments_in(with_data_crc, descriptors, data) is Ok {
        let n = descriptors.len() as int;
        let before = descriptors.drop_last();
        lemma_segments_in(with_data_crc, before, data);
        let (segments, rest) = segments_in(with_data_crc, descriptors, data)->Ok_0;
        let (earlier, left) = segments_in(with_data_crc, before, data)->Ok_0;
        lemma_start_prefix(descriptors, n - 1);
        let at = segment_start(descriptors, n - 1);
        let length = descriptors.last().length as int;
        reveal_with_fuel(segment_start, 2);
        assert(segments.last() == segments[n - 1]);
        assert(left.take(length) =~= data.subrange(at, at + length));
        assert(left.skip(length) =~= data.skip(at + length));
        assert(rest =~= data.skip(segment_start(descriptors, n)));
        assert forall|i: int| 0 <= i < n implies {
            let at = segment_start(descriptors, i);
            let d = descriptors[i];
            &&& (#[trigger] segments[i]).alignment == d.alignment
            &&& 0 <= at && at + d.length <= data.len()
            &&& segments[i].data == data.subrange(at, at + d.length)
        } by {
            if i < n - 1 {
                lemma_start_prefix(descriptors, i);
                assert(segments[i] == earlier[i]);
            }
        }
        if n > 1 {
            assert(before[0] == descriptors[0]);
            assert(segments[0] == earlier[0]);
        } else if length > 0 {
            assert(at == 0);
            assert(left.skip(length).take(4) =~= data.subrange(length, length + 4));
        }
    }
}

/// A frame that is accepted is within its limits and is what its preamble says: the checksum of the
/// preamble holds, each segment stands in its place with its length and alignment, and a frame of
/// several segments is marked as complete. Where data has checksums, that of each segment holds.
pub proof fn law_accepted_frame_is_whole(with_data_crc: bool, data: Seq<u8>, limits: Limits)
    ensures
        crc_decoding(with_data_crc, data, limits) matches Ok((frame, rest)) ==> {
            let p = data.take(32);
            let descriptors = descriptors_in(p);
            let body = data.skip(32);
            let end = segment_start(descriptors, descriptors.len() as int);
            &&& data.len() >= 32
            &&& from_le32(data.subrange(28, 32)) == checksum(0, data.take(28))
            &&& data[0] == tag_code(frame.tag) && 1 <= data[0] <= 20
            &&& data[1] == frame.segments.len() && 1 <= data[1] <= 4
            &&& frame.segments.len() > 1 ==> frame.segments.last().data.len() > 0
            &&& forall|i: int|
                0 <= i < frame.segments.len() ==> {
                    let s = #[trigger] frame.segments[i];
                    let at = segment_start(descriptors, i);
                    &&& s.data.len() == from_le32(data.subrange(2 + 6 * i, 6 + 6 * i))
                    &&& s.alignment == from_le16(data.subrange(6 + 6 * i, 8 + 6 * i))
                    &&& s.data == body.subrange(at, at + s.data.len())
                    &&& s.data.len() <= limits.max_segment_bytes
                    &&& power_of_two(s.alignment as nat)
                }
            &&& with_data_crc && frame.segments[0].data.len() > 0 ==> checksum(
                u32::MAX,
                frame.segments[0].data,
            ) == from_le32(
                body.subrange(
                    frame.segments[0].data.len() as int,
                    (frame.segments[0].data.len() + 4) as int,
                ),
            )
            &&& frame.segments.len() == 1 ==> rest == body.skip(end)
            &&& frame.segments.len() > 1 ==> {
                &&& body.len() >= end + 13
                &&& rest == body.skip(end + 13)
                &&& body[end] % 16 == 0x0e
                &&& with_data_crc ==> forall|i: int|
                    1 <= i < frame.segments.len() ==> checksum(
                        u32::MAX,
                        (#[trigger] frame.segments[i]).data,
                    ) == from_le32(body.subrange(end + 4 * i - 3, end + 4 * i + 1))
            }
            &&& data.len() - rest.len() <= limits.max_frame_bytes
        },
{
    if crc_decoding(with_data_crc, data, limits) is Ok {
        let (frame, rest) = crc_decoding(with_data_crc, data, limits)->Ok_0;
        let p = data.take(32);
        let descriptors = descriptors_in(p);
        let body = data.skip(32);
        let n = descriptors.len() as int;
        let end = segment_start(descriptors, n);
        lemma_segments_in(with_data_crc, descriptors, body);
        assert(p.take(28) =~= data.take(28));
        assert(p.skip(28) =~= data.subrange(28, 32));
        lemma_tag_found(p[0]);
        lemma_no_fault(descriptors, limits);
        lemma_sizes(descriptors);
        let after = body.skip(end);
        if n > 1 {
            assert(after.skip(13) =~= body.skip(end + 13));
            let epilogue = after.take(13);
            assert(epilogue[0] == body[end]);
            assert(n - 1 == descriptors.len() - 1);
            assert(descriptor_at(p, n - 1).length > 0);
            assert(frame.segments.last() == frame.segments[n - 1]);
            assert forall|i: int| 1 <= i < n && with_data_crc implies checksum(
                u32::MAX,
                (#[trigger] frame.segments[i]).data,
            ) == from_le32(body.subrange(end + 4 * i - 3, end + 4 * i + 1)) by {
                assert(epilogue.subrange(4 * i - 3, 4 * i + 1) =~= body.subrange(
                    end + 4 * i - 3,
                    end + 4 * i + 1,
                ));
            }
        }
        assert forall|i: int| 0 <= i < n implies {
            let s = #[trigger] frame.segments[i];
            let at = segment_start(descriptors, i);
            &&& s.data.len() == from_le32(data.subrange(2 + 6 * i, 6 + 6 * i))
            &&& s.alignment == from_le16(data.subrange(6 + 6 * i, 8 + 6 * i))
            &&& s.data == body.subrange(at, at + s.data.len())
            &&& s.data.len() <= limits.max_segment_bytes
            &&& power_of_two(s.alignment as nat)
        } by {
            assert(descriptors[i] == descriptor_at(p, i));
            assert(p.subrange(2 + 6 * i, 6 + 6 * i) =~= data.subrange(2 + 6 * i, 6 + 6 * i));
            assert(p.subrange(6 + 6 * i, 8 + 6 * i) =~= data.subrange(6 + 6 * i, 8 + 6 * i));
        }
    }
}

proof fn lemma_tag_found(code: u8)
    requires
        1 <= code <= 20,
    ensures
        tag_code(tag_of(code)) == code,
{
    assert(tag_code(Tag::Hello) == 1 && tag_code(Tag::AuthRequest) == 2);
    assert(tag_code(Tag::AuthBadMethod) == 3 && tag_code(Tag::AuthReplyMore) == 4);
    assert(tag_code(Tag::AuthRequestMore) == 5 && tag_code(Tag::AuthDone) == 6);
    assert(tag_code(Tag::AuthSignature) == 7 && tag_code(Tag::ClientIdent) == 8);
    assert(tag_code(Tag::ServerIdent) == 9 && tag_code(Tag::IdentMissingFeatures) == 10);
    assert(tag_code(Tag::SessionReconnect) == 11 && tag_code(Tag::SessionReset) == 12);
    assert(tag_code(Tag::SessionRetry) == 13 && tag_code(Tag::SessionRetryGlobal) == 14);
    assert(tag_code(Tag::SessionReconnectOk) == 15 && tag_code(Tag::Wait) == 16);
    assert(tag_code(Tag::Message) == 17 && tag_code(Tag::Keepalive2) == 18);
    assert(tag_code(Tag::Keepalive2Ack) == 19 && tag_code(Tag::Ack) == 20);
}

proof fn lemma_no_fault(descriptors: Seq<Descriptor>, limits: Limits)
    requires
        super::frame::first_fault(descriptors, limits) is None,
    ensures
        forall|i: int|
            0 <= i < descriptors.len() ==> (#[trigger] descriptors[i]).length
                <= limits.max_segment_bytes && power_of_two(descriptors[i].alignment as nat),
    decreases descriptors.len(),
{
    if descriptors.len() > 0 {
        lemma_no_fault(descriptors.drop_last(), limits);
        assert forall|i: int| 0 <= i < descriptors.len() implies (#[trigger] descriptors[i]).length
            <= limits.max_segment_bytes && power_of_two(descriptors[i].alignment as nat) by {
            if i < descriptors.len() - 1 {
                assert(descriptors.drop_last()[i] == descriptors[i]);
            }
        }
    }
}

proof fn lemma_sizes(descriptors: Seq<Descriptor>)
    requires
        descriptors.len() > 0,
    ensures
        segment_start(descriptors, descriptors.len() as int) == super::frame::payload_size(
            descriptors,
        ) + if descriptors[0].length > 0 {
            4int
        } else {
            0
        },
    decreases descriptors.len(),
{
    let n = descriptors.len() as int;
    lemma_start_prefix(descriptors, n - 1);
    if n > 1 {
        lemma_sizes(descriptors.drop_last());
    } else {
        reveal_with_fuel(super::frame::payload_size, 2);
        reveal_with_fuel(segment_start, 2);
    }
}

// ---------------------------------------------------------------------------
// Sealed frames
// ---------------------------------------------------------------------------

/// The first sixteen bytes of a secret are the key. A server sends with the nonce that follows, and a
/// client with the one after that. The nonce of a record is the first four bytes of that, then its
/// number, which counts up from the other eight.
pub proof fn law_secret_gives_key_and_nonces(secret: Seq<u8>)
    requires
        secret.len() == 64,
    ensures
        sending(secret, false).key == secret.subrange(0, 16),
        receiving(secret, false).key == secret.subrange(0, 16),
        next_nonce(sending(secret, true)) == secret.subrange(16, 28),
        next_nonce(sending(secret, false)) == secret.subrange(28, 40),
        next_nonce(receiving(secret, false)) == secret.subrange(16, 28),
        next_nonce(receiving(secret, true)) == secret.subrange(28, 40),
        !sending(secret, false).exhausted && !receiving(secret, false).exhausted,
{
    lemma_nonce(secret.subrange(16, 28));
    lemma_nonce(secret.subrange(28, 40));
}

proof fn lemma_nonce(seed: Seq<u8>)
    requires
        seed.len() == 12,
    ensures
        crate::wire::le32(from_le32(seed.subrange(0, 4))) + crate::wire::le64(
            from_le64(seed.subrange(4, 12)),
        ) == seed,
{
    reveal(crate::wire::le64);
    reveal(from_le64);
    let a = seed.subrange(0, 4);
    let b = seed.subrange(4, 12);
    lemma_le32_back(a);
    lemma_le32_back(b.subrange(0, 4));
    lemma_le32_back(b.subrange(4, 8));
    let low = from_le32(b.subrange(0, 4));
    let high = from_le32(b.subrange(4, 8));
    let x = from_le64(b);
    assert(x == low + high * 0x1_0000_0000);
    assert(x % 0x1_0000_0000 == low);
    assert(x / 0x1_0000_0000 == high);
    assert(crate::wire::le32(from_le32(a)) + crate::wire::le64(x) =~= seed);
}

proof fn lemma_le32_back(b: Seq<u8>)
    requires
        b.len() == 4,
    ensures
        crate::wire::le32(from_le32(b)) == b,
{
    reveal(crate::wire::le32);
    reveal(from_le32);
    let x = from_le32(b);
    assert(x == b[0] + b[1] * 256 + b[2] * 65536 + b[3] * 16777216);
    assert(x % 256 == b[0]);
    assert(x / 256 % 256 == b[1]);
    assert(x / 65536 % 256 == b[2]);
    assert(x / 16777216 == b[3]);
    assert(crate::wire::le32(x) =~= b);
}

/// The nonce of the next record differs in its number alone, which is one more.
pub proof fn law_nonces_count_up(d: DirectionView)
    ensures
        d.counter < u64::MAX ==> {
            &&& advanced(d).counter == d.counter + 1
            &&& advanced(d).exhausted == d.exhausted
        },
        d.counter == u64::MAX ==> advanced(d).exhausted,
        advanced(d).key == d.key,
        advanced(d).fixed == d.fixed,
        next_nonce(d).len() == 12,
        from_le32(next_nonce(d).subrange(0, 4)) == d.fixed,
        from_le64(next_nonce(d).subrange(4, 12)) == d.counter,
{
    broadcast use crate::wire::group_integers;

    let n = next_nonce(d);
    assert(n.subrange(0, 4) =~= crate::wire::le32(d.fixed));
    assert(n.subrange(4, 12) =~= crate::wire::le64(d.counter));
}

/// The first record of a sealed frame is the preamble with the first 48 bytes of the first segment.
/// What is left of that is the second, if there is any. Later segments are the last, each padded to a
/// multiple of sixteen bytes, with a block behind them that marks them as complete. Padding is zero.
pub proof fn law_sealed_frame_layout(tag: Tag, segments: Seq<SegmentView>)
    requires
        1 <= segments.len() <= 4,
        forall|i: int|
            0 <= i < segments.len() ==> (#[trigger] segments[i]).data.len() <= u32::MAX,
    ensures
        ({
            let records = plain_records(tag, segments);
            let data = segments[0].data;
            let long = data.len() > 48;
            let first = records[0];
            &&& records.len() == 1 + (if long {
                1int
            } else {
                0
            }) + (if segments.len() > 1 {
                1int
            } else {
                0
            })
            &&& first.len() == 80
            &&& first.take(32) == preamble_bytes(tag, descriptors_of(segments))
            &&& forall|i: int|
                0 <= i < 48 ==> #[trigger] first[32 + i] == if i < data.len() {
                    data[i]
                } else {
                    0
                }
            &&& long ==> {
                let second = records[1];
                &&& second.len() % 16 == 0
                &&& data.len() <= 48 + second.len() < data.len() + 16
                &&& forall|i: int|
                    0 <= i < second.len() ==> #[trigger] second[i] == if 48 + i < data.len() {
                        data[48 + i]
                    } else {
                        0
                    }
            }
            &&& segments.len() > 1 ==> {
                let last = records[records.len() - 1];
                &&& last.len() >= 16
                &&& last[last.len() - 16] == 0x0e
                &&& forall|i: int| last.len() - 15 <= i < last.len() ==> #[trigger] last[i] == 0
                &&& last.take(last.len() - 16) == sixteenths(segments.skip(1))
            }
        }),
{
    super::frame::lemma_preamble_len(tag, descriptors_of(segments));
    let records = plain_records(tag, segments);
    let data = segments[0].data;
    assert(descriptors_of(segments)[0].length == data.len());
    let first = records[0];
    assert(first.take(32) =~= preamble_bytes(tag, descriptors_of(segments)));
    if segments.len() > 1 {
        lemma_sixteenths(segments.skip(1));
        let last = records[records.len() - 1];
        assert(last.take(last.len() - 16) =~= sixteenths(segments.skip(1)));
    }
}

/// Data followed by zeros up to the next multiple of sixteen bytes.
#[verifier::opaque]
pub open spec fn sixteenth(data: Seq<u8>) -> Seq<u8> {
    data + Seq::new(((16 - data.len() % 16) % 16) as nat, |i: int| 0u8)
}

/// Segments one after another, each filled up to a multiple of sixteen bytes.
pub open spec fn sixteenths(segments: Seq<SegmentView>) -> Seq<u8>
    decreases segments.len(),
{
    if segments.len() == 0 {
        Seq::empty()
    } else {
        sixteenth(segments[0].data) + sixteenths(segments.skip(1))
    }
}

proof fn lemma_sixteenth(data: Seq<u8>)
    ensures
        filled(data, padded(data.len())) == sixteenth(data),
{
    reveal(sixteenth);
    assert(filled(data, padded(data.len())) =~= sixteenth(data));
}

proof fn lemma_sixteenths(segments: Seq<SegmentView>)
    ensures
        padded_segments(segments) == sixteenths(segments),
    decreases segments.len(),
{
    if segments.len() > 0 {
        lemma_padded_first(segments);
        lemma_sixteenths(segments.skip(1));
    }
}

proof fn lemma_padded_first(segments: Seq<SegmentView>)
    requires
        segments.len() > 0,
    ensures
        padded_segments(segments) == sixteenth(segments[0].data) + padded_segments(
            segments.skip(1),
        ),
    decreases segments.len(),
{
    let before = segments.drop_last();
    let last = sixteenth(segments.last().data);
    lemma_sixteenth(segments.last().data);
    assert(padded_segments(segments) == padded_segments(before) + last);
    if segments.len() == 1 {
        assert(padded_segments(before) == Seq::<u8>::empty());
        assert(padded_segments(segments.skip(1)) == Seq::<u8>::empty());
        assert(Seq::<u8>::empty() + last =~= last + Seq::<u8>::empty());
    } else {
        let first = sixteenth(segments[0].data);
        let rest = segments.skip(1);
        lemma_padded_first(before);
        assert(before[0] == segments[0]);
        assert(before.skip(1) =~= rest.drop_last());
        assert(rest.last() == segments.last());
        let middle = padded_segments(rest.drop_last());
        assert(padded_segments(rest) == middle + last);
        assert((first + middle) + last =~= first + (middle + last));
    }
}

/// What pads a segment must be zero, and a block that does not mark a frame as complete ends it.
pub proof fn law_padding_and_mark_are_checked(descriptor: Descriptor, data: Seq<u8>, i: int)
    requires
        descriptor.length <= data.len(),
    ensures
        descriptor.length <= i < data.len() && data[i] != 0 ==> segment_in(descriptor, data)
            == Err::<SegmentView, FrameError>(FrameError::Malformed),
        segment_in(descriptor, data) matches Ok(s) ==> s.alignment == descriptor.alignment
            && s.data == data.take(descriptor.length as int),
        data.len() == 16 && 1 <= i < 16 && data[i] != 0 ==> later_in(Seq::empty(), data) == Err::<
            Seq<SegmentView>,
            FrameError,
        >(FrameError::Malformed),
        data.len() == 16 && data[0] % 16 != 0x0e ==> later_in(Seq::empty(), data) is Err,
        data.len() == 16 && data[0] % 16 == 0x01 && (forall|k: int|
            1 <= k < 16 ==> #[trigger] data[k] == 0) ==> later_in(Seq::empty(), data) == Err::<
            Seq<SegmentView>,
            FrameError,
        >(FrameError::Aborted),
{
    if data.len() == 16 {
        assert(data.skip(0) =~= data);
    }
}

} // verus!
