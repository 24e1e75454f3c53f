//! Objects whose copies differ.

use super::messages::{Operation, OperationView};
use crate::sorting::{
    lemma_text_order, number_order, sort_numbers, sort_texts, text_order, texts_view,
};
use crate::wire::{
    ascii_chars, ascii_string, bounded, finished, get_bool, get_bytes, get_i32, get_i8, get_many,
    get_u32, get_u64, get_versioned, le32, le64, lemma_get_many_error, limited_input, prefixed,
    versioned, Decoder, Encoder, Input, WireError,
};
use vstd::prelude::*;
use vstd::relations::{sorted_by, total_ordering};
use vstd::slice::slice_to_vec;

verus! {

broadcast use crate::wire::group_integers;

/// An object whose copies differ, the daemons that hold them, and how they differ.
#[derive(Debug, PartialEq, Eq)]
pub struct InconsistentObject {
    pub object: Vec<u8>,
    pub namespace: Vec<u8>,
    pub locator: Vec<u8>,
    pub snapshot: u64,
    pub shards: Vec<i32>,
    pub errors: Vec<String>,
}

pub struct InconsistentView {
    pub object: Seq<u8>,
    pub namespace: Seq<u8>,
    pub locator: Seq<u8>,
    pub snapshot: u64,
    pub shards: Seq<i32>,
    pub errors: Seq<Seq<char>>,
}

impl View for InconsistentObject {
    type V = InconsistentView;

    open spec fn view(&self) -> InconsistentView {
        InconsistentView {
            object: self.object@,
            namespace: self.namespace@,
            locator: self.locator@,
            snapshot: self.snapshot,
            shards: self.shards@,
            errors: texts_view(self.errors@),
        }
    }
}

pub open spec fn objects_view(objects: Seq<InconsistentObject>) -> Seq<InconsistentView> {
    Seq::new(objects.len(), |i: int| objects[i]@)
}

impl Default for InconsistentObject {
    fn default() -> (r: Self)
        ensures
            r@ == (InconsistentView {
                object: Seq::empty(),
                namespace: Seq::empty(),
                locator: Seq::empty(),
                snapshot: 0,
                shards: Seq::empty(),
                errors: Seq::empty(),
            }),
    {
        let r = InconsistentObject {
            object: Vec::new(),
            namespace: Vec::new(),
            locator: Vec::new(),
            snapshot: 0,
            shards: Vec::new(),
            errors: Vec::new(),
        };
        assert(r@.errors =~= Seq::empty());
        r
    }
}

fn copy_texts(texts: &Vec<String>) -> (r: Vec<String>)
    ensures
        texts_view(r@) == texts_view(texts@),
{
    let mut copy: Vec<String> = Vec::new();
    let mut i: usize = 0;
    while i < texts.len()
        invariant
            i <= texts@.len(),
            copy@.len() == i,
            forall|j: int| 0 <= j < i ==> (#[trigger] copy@[j])@ == texts@[j]@,
        decreases texts@.len() - i,
    {
        copy.push(texts[i].clone());
        i = i + 1;
    }
    assert(texts_view(copy@) =~= texts_view(texts@));
    copy
}

fn copy_numbers(numbers: &Vec<i32>) -> (r: Vec<i32>)
    ensures
        r@ == numbers@,
{
    let mut copy: Vec<i32> = Vec::new();
    let mut i: usize = 0;
    while i < numbers.len()
        invariant
            i <= numbers@.len(),
            copy@ =~= numbers@.take(i as int),
        decreases numbers@.len() - i,
    {
        copy.push(numbers[i]);
        i = i + 1;
    }
    assert(copy@ =~= numbers@);
    copy
}

impl Clone for InconsistentObject {
    fn clone(&self) -> (r: Self)
        ensures
            r@ == self@,
    {
        InconsistentObject {
            object: slice_to_vec(self.object.as_slice()),
            namespace: slice_to_vec(self.namespace.as_slice()),
            locator: slice_to_vec(self.locator.as_slice()),
            snapshot: self.snapshot,
            shards: copy_numbers(&self.shards),
            errors: copy_texts(&self.errors),
        }
    }
}

// ---------------------------------------------------------------------------
// Asking
// ---------------------------------------------------------------------------

pub open spec fn scrub_payload(interval: u32, start: InconsistentView, maximum: u64) -> Seq<u8> {
    le32(interval) + (le32(0) + (prefixed(start.object) + (prefixed(start.namespace) + (le64(
        start.snapshot,
    ) + le64(maximum)))))
}

/// What `encode_scrub_list` yields: a listing from behind `start` on.
pub open spec fn scrub_encoding(
    interval: u32,
    start: InconsistentView,
    maximum: u64,
    max_bytes: u32,
) -> Result<OperationView, WireError> {
    if maximum == 0 || max_bytes == 0 {
        Err(WireError::LimitExceeded)
    } else {
        match bounded(
            versioned(1, 1, scrub_payload(interval, start, maximum)),
            max_bytes as nat,
        ) {
            Err(error) => Err(error),
            Ok(bytes) => Ok(OperationView::ScrubList(bytes)),
        }
    }
}

pub fn encode_scrub_list(
    interval: u32,
    start: &InconsistentObject,
    maximum: u64,
    max_bytes: u32,
) -> (r: Result<Operation, WireError>)
    ensures
        r matches Ok(operation) ==> scrub_encoding(interval, start@, maximum, max_bytes) == Ok::<
            OperationView,
            WireError,
        >(operation@),
        r matches Err(error) ==> scrub_encoding(interval, start@, maximum, max_bytes) == Err::<
            OperationView,
            WireError,
        >(error),
{
    if maximum == 0 || max_bytes == 0 {
        return Err(WireError::LimitExceeded);
    }
    let mut encoder = Encoder::new(max_bytes as usize);
    let mut payload = encoder.nested();
    payload.u32(interval);
    payload.u32(0);
    payload.bytes(start.object.as_slice());
    payload.bytes(start.namespace.as_slice());
    payload.u64(start.snapshot);
    payload.u64(maximum);
    assert(payload@ =~= scrub_payload(interval, start@, maximum));
    encoder.versioned(1, 1, payload);
    assert(encoder@ =~= versioned(1, 1, scrub_payload(interval, start@, maximum)));
    let bytes = encoder.finish()?;
    Ok(Operation::ScrubList(bytes))
}

// ---------------------------------------------------------------------------
// Names of errors
// ---------------------------------------------------------------------------

/// The errors of an object as a whole.
pub open spec fn object_error_names() -> Seq<(u64, Seq<char>)> {
    seq![
        (0x2u64, "object_info_inconsistency"@),
        (0x10u64, "data_digest_mismatch"@),
        (0x20u64, "omap_digest_mismatch"@),
        (0x40u64, "size_mismatch"@),
        (0x80u64, "attr_value_mismatch"@),
        (0x100u64, "attr_name_mismatch"@),
        (0x200u64, "snapset_inconsistency"@),
        (0x400u64, "hinfo_inconsistency"@),
        (0x800u64, "size_too_large"@),
    ]
}

/// The errors of one copy of an object.
pub open spec fn shard_error_names() -> Seq<(u64, Seq<char>)> {
    seq![
        (0x2u64, "shard_missing"@),
        (0x4u64, "shard_stat_error"@),
        (0x8u64, "shard_read_error"@),
        (0x200u64, "data_digest_mismatch_info"@),
        (0x400u64, "omap_digest_mismatch_info"@),
        (0x800u64, "size_mismatch_info"@),
        (0x1000u64, "shard_ec_hash_mismatch"@),
        (0x2000u64, "shard_ec_size_mismatch"@),
        (0x4000u64, "info_missing"@),
        (0x8000u64, "info_corrupted"@),
        (0x1_0000u64, "snapset_missing"@),
        (0x2_0000u64, "snapset_corrupted"@),
        (0x4_0000u64, "object_size_info_mismatch"@),
        (0x8_0000u64, "hinfo_missing"@),
        (0x10_0000u64, "hinfo_corrupted"@),
    ]
}

pub open spec fn table_view(table: Seq<(u64, &'static str)>) -> Seq<(u64, Seq<char>)> {
    Seq::new(table.len(), |i: int| (table[i].0, table[i].1@))
}

fn object_error_table() -> (r: Vec<(u64, &'static str)>)
    ensures
        table_view(r@) == object_error_names(),
{
    let r = vec![
        (0x2u64, "object_info_inconsistency"),
        (0x10u64, "data_digest_mismatch"),
        (0x20u64, "omap_digest_mismatch"),
        (0x40u64, "size_mismatch"),
        (0x80u64, "attr_value_mismatch"),
        (0x100u64, "attr_name_mismatch"),
        (0x200u64, "snapset_inconsistency"),
        (0x400u64, "hinfo_inconsistency"),
        (0x800u64, "size_too_large"),
    ];
    assert(table_view(r@) =~= object_error_names());
    r
}

fn shard_error_table() -> (r: Vec<(u64, &'static str)>)
    ensures
        table_view(r@) == shard_error_names(),
{
    let r = vec![
        (0x2u64, "shard_missing"),
        (0x4u64, "shard_stat_error"),
        (0x8u64, "shard_read_error"),
        (0x200u64, "data_digest_mismatch_info"),
        (0x400u64, "omap_digest_mismatch_info"),
        (0x800u64, "size_mismatch_info"),
        (0x1000u64, "shard_ec_hash_mismatch"),
        (0x2000u64, "shard_ec_size_mismatch"),
        (0x4000u64, "info_missing"),
        (0x8000u64, "info_corrupted"),
        (0x1_0000u64, "snapset_missing"),
        (0x2_0000u64, "snapset_corrupted"),
        (0x4_0000u64, "object_size_info_mismatch"),
        (0x8_0000u64, "hinfo_missing"),
        (0x10_0000u64, "hinfo_corrupted"),
    ];
    assert(table_view(r@) =~= shard_error_names());
    r
}

/// The names of the bits that are set, in the order of the table.
pub open spec fn known_names(bits: u64, names: Seq<(u64, Seq<char>)>) -> Seq<Seq<char>>
    decreases names.len(),
{
    if names.len() == 0 {
        Seq::empty()
    } else {
        let before = known_names(bits, names.drop_last());
        if bits & names.last().0 != 0 {
            before.push(names.last().1)
        } else {
            before
        }
    }
}

/// All bits that have a name.
pub open spec fn known_bits(names: Seq<(u64, Seq<char>)>) -> u64
    decreases names.len(),
{
    if names.len() == 0 {
        0
    } else {
        known_bits(names.drop_last()) | names.last().0
    }
}

/// A hexadecimal digit.
pub open spec fn hex_digit(n: nat) -> u8 {
    if n < 10 {
        (48 + n) as u8
    } else {
        (87 + n) as u8
    }
}

/// A number in hexadecimal digits.
pub open spec fn hexadecimal(n: nat) -> Seq<u8>
    decreases n,
{
    if n < 16 {
        seq![hex_digit(n)]
    } else {
        hexadecimal(n / 16).push(hex_digit(n % 16))
    }
}

/// The bytes of `unknown_0x`.
pub open spec fn unknown_prefix() -> Seq<u8> {
    seq![117u8, 110u8, 107u8, 110u8, 111u8, 119u8, 110u8, 95u8, 48u8, 120u8]
}

/// The names of the bits that are set, and one name for all that have none.
pub open spec fn error_texts(bits: u64, names: Seq<(u64, Seq<char>)>) -> Seq<Seq<char>> {
    let unknown = bits & !known_bits(names);
    if unknown != 0 {
        known_names(bits, names).push(
            ascii_chars(unknown_prefix() + hexadecimal(unknown as nat)),
        )
    } else {
        known_names(bits, names)
    }
}

fn push_hexadecimal(out: &mut Vec<u8>, n: u64)
    ensures
        final(out)@ == old(out)@ + hexadecimal(n as nat),
        forall|i: int|
            0 <= i < hexadecimal(n as nat).len() ==> #[trigger] hexadecimal(n as nat)[i] < 128,
    decreases n,
{
    if n >= 16 {
        push_hexadecimal(out, n / 16);
    }
    let digit: u8 = (n % 16) as u8;
    out.push(
        if digit < 10 {
            48 + digit
        } else {
            87 + digit
        },
    );
    assert(out@ =~= old(out)@ + hexadecimal(n as nat));
}

fn unknown_name(bits: u64) -> (r: String)
    ensures
        r@ == ascii_chars(unknown_prefix() + hexadecimal(bits as nat)),
{
    let mut out: Vec<u8> = vec![117, 110, 107, 110, 111, 119, 110, 95, 48, 120];
    assert(out@ =~= unknown_prefix());
    push_hexadecimal(&mut out, bits);
    ascii_string(out)
}

/// The names of errors behind those of `texts`.
fn error_names(bits: u64, names: &Vec<(u64, &'static str)>, texts: &mut Vec<String>)
    ensures
        texts_view(final(texts)@) == texts_view(old(texts)@) + error_texts(
            bits,
            table_view(names@),
        ),
{
    let ghost all = table_view(names@);
    let ghost start = texts_view(texts@);
    let mut known: u64 = 0;
    let mut i: usize = 0;
    assert(start =~= start + known_names(bits, all.take(0)));
    while i < names.len()
        invariant
            i <= names@.len(),
            all == table_view(names@),
            known == known_bits(all.take(i as int)),
            texts_view(texts@) == start + known_names(bits, all.take(i as int)),
        decreases names@.len() - i,
    {
        let ghost before = texts_view(texts@);
        let bit: u64 = names[i].0;
        assert(all.take(i + 1).drop_last() =~= all.take(i as int));
        assert(all.take(i + 1).last() == (bit, names@[i as int].1@));
        known = known | bit;
        if bits & bit != 0 {
            texts.push(names[i].1.to_owned());
            assert(texts_view(texts@) =~= before.push(names@[i as int].1@));
            assert(texts_view(texts@) =~= start + known_names(bits, all.take(i + 1)));
        }
        i = i + 1;
    }
    assert(all.take(i as int) =~= all);
    let unknown: u64 = bits & !known;
    if unknown != 0 {
        let ghost before = texts_view(texts@);
        let name = unknown_name(unknown);
        texts.push(name);
        assert(texts_view(texts@) =~= before.push(name@));
    }
    assert(texts_view(texts@) =~= start + error_texts(bits, all));
}

// ---------------------------------------------------------------------------
// Decoding
// ---------------------------------------------------------------------------

/// The input behind `count` keys and values.
pub open spec fn skip_pairs(d: Input, count: nat) -> Input
    decreases count,
{
    if count == 0 {
        d
    } else {
        get_bytes(get_bytes(skip_pairs(d, (count - 1) as nat)).1).1
    }
}

/// The errors of a copy. One that is there comes with its attributes and digests.
#[verifier::opaque]
pub open spec fn shard_info(d: Input, max_entries: u32) -> Result<u64, WireError> {
    let (errors, d1) = get_u64(d);
    let d2 = get_bool(d1).1;
    let (attributes, d3) = get_u32(d2);
    let d4 = skip_pairs(d3, attributes as nat);
    let d5 = get_bool(get_u64(d4).1).1;
    let d6 = get_bool(get_u32(d5).1).1;
    let d7 = get_bool(get_u32(d6).1).1;
    let there = errors & 2 == 0;
    let end = if there {
        d7
    } else {
        d2
    };
    if there && attributes > max_entries {
        Err(WireError::LimitExceeded)
    } else if finished(end) is Err {
        Err(finished(end)->Err_0)
    } else if end.rest.len() != 0 {
        Err(WireError::Malformed)
    } else {
        Ok(errors)
    }
}

/// The daemon that holds a copy.
#[verifier::opaque]
pub open spec fn shard_daemon(d: Input) -> Result<i32, WireError> {
    let (daemon, d1) = get_i32(d);
    let d2 = get_i8(d1).1;
    if finished(d2) is Err {
        Err(finished(d2)->Err_0)
    } else if d2.rest.len() != 0 {
        Err(WireError::Malformed)
    } else {
        Ok(daemon)
    }
}

/// The next copy of an object: the daemon that holds it, and its errors.
#[verifier::opaque]
pub open spec fn get_shard(d: Input, max_entries: u32) -> Result<((i32, u64), Input), WireError> {
    let (shard_version, shard, d1) = get_versioned(d, 1);
    let (info_version, info, d2) = get_versioned(d1, 3);
    if finished(d1) is Err {
        Err(finished(d1)->Err_0)
    } else if shard_version != 1 {
        Err(WireError::UnsupportedVersion { local: 1, required: shard_version })
    } else {
        match shard_daemon(shard) {
            Err(error) => Err(error),
            Ok(daemon) => if finished(d2) is Err {
                Err(finished(d2)->Err_0)
            } else if info_version != 3 {
                Err(WireError::UnsupportedVersion { local: 3, required: info_version })
            } else {
                match shard_info(info, max_entries) {
                    Err(error) => Err(error),
                    Ok(errors) => Ok(((daemon, errors), d2)),
                }
            },
        }
    }
}

pub open spec fn shard_decoder(max_entries: u32) -> spec_fn(Input) -> Result<
    ((i32, u64), Input),
    WireError,
> {
    |d: Input| get_shard(d, max_entries)
}

/// The errors that at least one copy has.
pub open spec fn all_errors(shards: Seq<(i32, u64)>) -> u64
    decreases shards.len(),
{
    if shards.len() == 0 {
        0
    } else {
        all_errors(shards.drop_last()) | shards.last().1
    }
}

pub open spec fn daemons(shards: Seq<(i32, u64)>) -> Seq<i32> {
    Seq::new(shards.len(), |i: int| shards[i].0)
}

/// The name of an object.
#[verifier::opaque]
pub open spec fn object_name(d: Input) -> Result<(Seq<u8>, Seq<u8>, Seq<u8>, u64), WireError> {
    let (object, d1) = get_bytes(d);
    let (namespace, d2) = get_bytes(d1);
    let (locator, d3) = get_bytes(d2);
    let (snapshot, d4) = get_u64(d3);
    if finished(d4) is Err {
        Err(finished(d4)->Err_0)
    } else if d4.rest.len() != 0 {
        Err(WireError::Malformed)
    } else {
        Ok((object, namespace, locator, snapshot))
    }
}

/// The copies of an object and all their errors.
#[verifier::opaque]
pub open spec fn object_shards(d: Input, max_entries: u32) -> Result<
    (Seq<(i32, u64)>, u64),
    WireError,
> {
    let d1 = get_u64(d).1;
    let (count, d2) = get_u32(d1);
    if count > max_entries {
        Err(WireError::LimitExceeded)
    } else {
        match get_many(d2, count as nat, shard_decoder(max_entries)) {
            Err(error) => Err(error),
            Ok((shards, d3)) => {
                let (union, d4) = get_u64(d3);
                if finished(d4) is Err {
                    Err(finished(d4)->Err_0)
                } else if d4.rest.len() != 0 {
                    Err(WireError::Malformed)
                } else {
                    Ok((shards, all_errors(shards) | union))
                }
            },
        }
    }
}

/// The object that an item of a listing holds. Its daemons and its errors are sorted.
#[verifier::opaque]
pub open spec fn object_decoding(data: Seq<u8>, max_bytes: u32, max_entries: u32) -> Result<
    InconsistentView,
    WireError,
> {
    let (version, payload, rest) = get_versioned(limited_input(data, max_bytes as nat), 2);
    let (object_errors, d1) = get_u64(payload);
    let (object_version, object, d2) = get_versioned(d1, 1);
    if finished(rest) is Err {
        Err(finished(rest)->Err_0)
    } else if version != 2 {
        Err(WireError::UnsupportedVersion { local: 2, required: version })
    } else if finished(d2) is Err {
        Err(finished(d2)->Err_0)
    } else if object_version != 1 {
        Err(WireError::UnsupportedVersion { local: 1, required: object_version })
    } else {
        match object_name(object) {
            Err(error) => Err(error),
            Ok((name, namespace, locator, snapshot)) => match object_shards(d2, max_entries) {
                Err(error) => Err(error),
                Ok((shards, shard_errors)) => Ok(
                    InconsistentView {
                        object: name,
                        namespace,
                        locator,
                        snapshot,
                        shards: daemons(shards).sort_by(number_order()),
                        errors: (error_texts(object_errors, object_error_names()) + error_texts(
                            shard_errors,
                            shard_error_names(),
                        )).sort_by(text_order()),
                    },
                ),
            },
        }
    }
}

pub open spec fn item_decoder(max_bytes: u32, max_entries: u32) -> spec_fn(Input) -> Result<
    (InconsistentView, Input),
    WireError,
> {
    |d: Input|
        {
            let (item, d1) = get_bytes(d);
            match object_decoding(item, max_bytes, max_entries) {
                Err(error) => Err(error),
                Ok(object) => Ok((object, d1)),
            }
        }
}

/// What `decode_scrub_list` yields: the interval that the listing is of, and its objects.
pub open spec fn scrub_decoding(data: Seq<u8>, max_bytes: u32, max_entries: u32) -> Result<
    (u32, Seq<InconsistentView>),
    WireError,
> {
    let (version, payload, rest) = get_versioned(limited_input(data, max_bytes as nat), 1);
    let (interval, d1) = get_u32(payload);
    let (count, d2) = get_u32(d1);
    if max_bytes == 0 || max_entries == 0 {
        Err(WireError::LimitExceeded)
    } else if finished(rest) is Err {
        Err(finished(rest)->Err_0)
    } else if version != 1 {
        Err(WireError::UnsupportedVersion { local: 1, required: version })
    } else if count > max_entries {
        Err(WireError::LimitExceeded)
    } else {
        match get_many(d2, count as nat, item_decoder(max_bytes, max_entries)) {
            Err(error) => Err(error),
            Ok((objects, d3)) => if finished(d3) is Err {
                Err(finished(d3)->Err_0)
            } else if d3.rest.len() != 0 || rest.rest.len() != 0 {
                Err(WireError::Malformed)
            } else {
                Ok((interval, objects))
            },
        }
    }
}

fn decode_shard_info(info: &mut Decoder<'_>, max_entries: u32) -> (r: Result<u64, WireError>)
    ensures
        r == shard_info(old(info)@, max_entries),
{
    reveal(shard_info);
    let errors: u64 = info.u64();
    info.bool();
    if errors & 2 == 0 {
        let attributes: u32 = info.u32();
        if attributes > max_entries {
            return Err(WireError::LimitExceeded);
        }
        let ghost start = info@;
        let mut i: u32 = 0;
        while i < attributes
            invariant
                i <= attributes,
                info@ == skip_pairs(start, i as nat),
            decreases attributes - i,
        {
            info.bytes();
            info.bytes();
            i = i + 1;
        }
        info.u64();
        info.bool();
        info.u32();
        info.bool();
        info.u32();
        info.bool();
    }
    info.finish()?;
    if info.remaining() != 0 {
        return Err(WireError::Malformed);
    }
    Ok(errors)
}

fn decode_shard_daemon(shard: &mut Decoder<'_>) -> (r: Result<i32, WireError>)
    ensures
        r == shard_daemon(old(shard)@),
{
    reveal(shard_daemon);
    let daemon: i32 = shard.i32();
    shard.i8();
    shard.finish()?;
    if shard.remaining() != 0 {
        return Err(WireError::Malformed);
    }
    Ok(daemon)
}

fn decode_shard(decoder: &mut Decoder<'_>, max_entries: u32) -> (r: Result<(i32, u64), WireError>)
    ensures
        r matches Ok(shard) ==> get_shard(old(decoder)@, max_entries) == Ok::<
            ((i32, u64), Input),
            WireError,
        >((shard, final(decoder)@)),
        r matches Err(error) ==> get_shard(old(decoder)@, max_entries) == Err::<
            ((i32, u64), Input),
            WireError,
        >(error),
{
    reveal(get_shard);
    let (shard_version, mut shard) = decoder.versioned(1);
    decoder.finish()?;
    if shard_version != 1 {
        return Err(WireError::UnsupportedVersion { local: 1, required: shard_version });
    }
    let daemon: i32 = decode_shard_daemon(&mut shard)?;
    let (info_version, mut info) = decoder.versioned(3);
    decoder.finish()?;
    if info_version != 3 {
        return Err(WireError::UnsupportedVersion { local: 3, required: info_version });
    }
    let errors: u64 = decode_shard_info(&mut info, max_entries)?;
    Ok((daemon, errors))
}

fn decode_name(object: &mut Decoder<'_>) -> (r: Result<
    (Vec<u8>, Vec<u8>, Vec<u8>, u64),
    WireError,
>)
    ensures
        r matches Ok(name) ==> object_name(old(object)@) == Ok::<
            (Seq<u8>, Seq<u8>, Seq<u8>, u64),
            WireError,
        >((name.0@, name.1@, name.2@, name.3)),
        r matches Err(error) ==> object_name(old(object)@) == Err::<
            (Seq<u8>, Seq<u8>, Seq<u8>, u64),
            WireError,
        >(error),
{
    reveal(object_name);
    let name = object.bytes();
    let namespace = object.bytes();
    let locator = object.bytes();
    let snapshot: u64 = object.u64();
    object.finish()?;
    if object.remaining() != 0 {
        return Err(WireError::Malformed);
    }
    Ok((name, namespace, locator, snapshot))
}

fn decode_shards(payload: &mut Decoder<'_>, max_entries: u32) -> (r: Result<
    (Vec<i32>, u64),
    WireError,
>)
    ensures
        match object_shards(old(payload)@, max_entries) {
            Ok((shards, errors)) => r matches Ok(found) && found.0@ == daemons(shards) && found.1
                == errors,
            Err(error) => r == Err::<(Vec<i32>, u64), WireError>(error),
        },
{
    reveal(object_shards);
    payload.u64();
    let count: u32 = payload.u32();
    if count > max_entries {
        return Err(WireError::LimitExceeded);
    }
    let ghost start = payload@;
    let ghost decode = shard_decoder(max_entries);
    let ghost mut found: Seq<(i32, u64)> = Seq::empty();
    let mut holders: Vec<i32> = Vec::new();
    let mut errors: u64 = 0;
    let mut i: u32 = 0;
    assert(holders@ =~= daemons(found));
    while i < count
        invariant
            i <= count <= max_entries,
            decode == shard_decoder(max_entries),
            holders@ == daemons(found),
            errors == all_errors(found),
            object_shards(old(payload)@, max_entries) == (match get_many(
                start,
                count as nat,
                decode,
            ) {
                Err(error) => Err(error),
                Ok((shards, d3)) => {
                    let (union, d4) = get_u64(d3);
                    if finished(d4) is Err {
                        Err(finished(d4)->Err_0)
                    } else if d4.rest.len() != 0 {
                        Err(WireError::Malformed)
                    } else {
                        Ok((shards, all_errors(shards) | union))
                    }
                },
            }),
            get_many(start, i as nat, decode) == Ok::<(Seq<(i32, u64)>, Input), WireError>(
                (found, payload@),
            ),
        decreases count - i,
    {
        proof {
            if get_many(start, (i + 1) as nat, decode) is Err {
                lemma_get_many_error(start, (i + 1) as nat, count as nat, decode);
            }
        }
        let (daemon, shard_errors) = decode_shard(payload, max_entries)?;
        let ghost before = found;
        proof {
            found = before.push((daemon, shard_errors));
            assert(found.drop_last() =~= before);
        }
        errors = errors | shard_errors;
        holders.push(daemon);
        assert(holders@ =~= daemons(found));
        i = i + 1;
    }
    errors = errors | payload.u64();
    payload.finish()?;
    if payload.remaining() != 0 {
        return Err(WireError::Malformed);
    }
    Ok((holders, errors))
}

/// The names of the errors of an object and of its copies, sorted.
fn describe(object_errors: u64, shard_errors: u64) -> (r: Vec<String>)
    ensures
        texts_view(r@) == (error_texts(object_errors, object_error_names()) + error_texts(
            shard_errors,
            shard_error_names(),
        )).sort_by(text_order()),
{
    let mut texts: Vec<String> = Vec::new();
    assert(texts_view(texts@) =~= Seq::empty());
    error_names(object_errors, &object_error_table(), &mut texts);
    error_names(shard_errors, &shard_error_table(), &mut texts);
    assert(texts_view(texts@) =~= error_texts(object_errors, object_error_names()) + error_texts(
        shard_errors,
        shard_error_names(),
    ));
    sort_texts(&texts)
}

/// The object that an item of a listing holds.
pub fn decode_inconsistent_object(data: &[u8], max_bytes: u32, max_entries: u32) -> (r: Result<
    InconsistentObject,
    WireError,
>)
    ensures
        r matches Ok(object) ==> object_decoding(data@, max_bytes, max_entries) == Ok::<
            InconsistentView,
            WireError,
        >(object@),
        r matches Err(error) ==> object_decoding(data@, max_bytes, max_entries) == Err::<
            InconsistentView,
            WireError,
        >(error),
{
    reveal(object_decoding);
    let mut decoder = Decoder::new(data, max_bytes as usize);
    let (version, mut payload) = decoder.versioned(2);
    decoder.finish()?;
    if version != 2 {
        return Err(WireError::UnsupportedVersion { local: 2, required: version });
    }
    let object_errors: u64 = payload.u64();
    let (object_version, mut object) = payload.versioned(1);
    payload.finish()?;
    if object_version != 1 {
        return Err(WireError::UnsupportedVersion { local: 1, required: object_version });
    }
    let (name, namespace, locator, snapshot) = decode_name(&mut object)?;
    let (holders, shard_errors) = decode_shards(&mut payload, max_entries)?;
    Ok(
        InconsistentObject {
            object: name,
            namespace,
            locator,
            snapshot,
            shards: sort_numbers(&holders),
            errors: describe(object_errors, shard_errors),
        },
    )
}

pub fn decode_scrub_list(data: &[u8], max_bytes: u32, max_entries: u32) -> (r: Result<
    (u32, Vec<InconsistentObject>),
    WireError,
>)
    ensures
        r matches Ok(page) ==> scrub_decoding(data@, max_bytes, max_entries) == Ok::<
            (u32, Seq<InconsistentView>),
            WireError,
        >((page.0, objects_view(page.1@))),
        r matches Err(error) ==> scrub_decoding(data@, max_bytes, max_entries) == Err::<
            (u32, Seq<InconsistentView>),
            WireError,
        >(error),
{
    if max_bytes == 0 || max_entries == 0 {
        return Err(WireError::LimitExceeded);
    }
    let mut decoder = Decoder::new(data, max_bytes as usize);
    let (version, mut payload) = decoder.versioned(1);
    decoder.finish()?;
    if version != 1 {
        return Err(WireError::UnsupportedVersion { local: 1, required: version });
    }
    let interval: u32 = payload.u32();
    let count: u32 = payload.u32();
    if count > max_entries {
        return Err(WireError::LimitExceeded);
    }
    let objects = decode_items(&mut payload, count, max_bytes, max_entries)?;
    payload.finish()?;
    if payload.remaining() != 0 || decoder.remaining() != 0 {
        return Err(WireError::Malformed);
    }
    Ok((interval, objects))
}

fn decode_items(
    payload: &mut Decoder<'_>,
    count: u32,
    max_bytes: u32,
    max_entries: u32,
) -> (r: Result<Vec<InconsistentObject>, WireError>)
    ensures
        r matches Ok(items) ==> get_many(
            old(payload)@,
            count as nat,
            item_decoder(max_bytes, max_entries),
        ) == Ok::<(Seq<InconsistentView>, Input), WireError>(
            (objects_view(items@), final(payload)@),
        ),
        r matches Err(error) ==> get_many(
            old(payload)@,
            count as nat,
            item_decoder(max_bytes, max_entries),
        ) == Err::<(Seq<InconsistentView>, Input), WireError>(error),
{
    let ghost start = payload@;
    let ghost decode = item_decoder(max_bytes, max_entries);
    let mut items: Vec<InconsistentObject> = Vec::new();
    let mut i: u32 = 0;
    assert(objects_view(items@) =~= Seq::<InconsistentView>::empty());
    while i < count
        invariant
            i <= count,
            start == old(payload)@,
            decode == item_decoder(max_bytes, max_entries),
            get_many(start, i as nat, decode) == Ok::<(Seq<InconsistentView>, Input), WireError>(
                (objects_view(items@), payload@),
            ),
        decreases count - i,
    {
        let ghost before = objects_view(items@);
        proof {
            if get_many(start, (i + 1) as nat, decode) is Err {
                lemma_get_many_error(start, (i + 1) as nat, count as nat, decode);
            }
        }
        let item = payload.bytes();
        let object = decode_inconsistent_object(item.as_slice(), max_bytes, max_entries)?;
        items.push(object);
        assert(objects_view(items@) =~= before.push(object@));
        i = i + 1;
    }
    Ok(items)
}

// ---------------------------------------------------------------------------
// Laws
// ---------------------------------------------------------------------------

proof fn lemma_no_name(bits: u64, names: Seq<(u64, Seq<char>)>)
    ensures
        known_names(bits, names).len() == 0 <==> bits & known_bits(names) == 0,
    decreases names.len(),
{
    if names.len() == 0 {
        assert(bits & 0 == 0) by (bit_vector);
    } else {
        lemma_no_name(bits, names.drop_last());
        let known = known_bits(names.drop_last());
        let bit = names.last().0;
        assert(bits & (known | bit) == 0 <==> bits & known == 0 && bits & bit == 0) by (bit_vector);
    }
}

/// An object or a copy has a name for an error exactly if it has an error: none is passed over,
/// known or not.
pub proof fn law_every_error_is_named(bits: u64, names: Seq<(u64, Seq<char>)>)
    ensures
        error_texts(bits, names).len() == 0 <==> bits == 0,
{
    lemma_no_name(bits, names);
    let known = known_bits(names);
    assert(bits & known == 0 && bits & !known == 0 <==> bits == 0) by (bit_vector);
}

/// The daemons and the errors of an object are listed in order, whatever order they came in.
pub proof fn law_findings_are_in_order(data: Seq<u8>, max_bytes: u32, max_entries: u32)
    requires
        object_decoding(data, max_bytes, max_entries) is Ok,
    ensures
        sorted_by(object_decoding(data, max_bytes, max_entries)->Ok_0.shards, number_order()),
        sorted_by(object_decoding(data, max_bytes, max_entries)->Ok_0.errors, text_order()),
{
    reveal(object_decoding);
    let (_, payload, _) = get_versioned(limited_input(data, max_bytes as nat), 2);
    let (object_errors, d1) = get_u64(payload);
    let (_, _, d2) = get_versioned(d1, 1);
    let (shards, shard_errors) = object_shards(d2, max_entries)->Ok_0;
    lemma_text_order();
    assert(total_ordering(number_order()));
    daemons(shards).lemma_sort_by_ensures(number_order());
    (error_texts(object_errors, object_error_names()) + error_texts(
        shard_errors,
        shard_error_names(),
    )).lemma_sort_by_ensures(text_order());
}

// ---------------------------------------------------------------------------
// Views
// ---------------------------------------------------------------------------

/// What stands for a value of this type has its fields.
pub proof fn law_inconsistent_object_has_its_fields(x: InconsistentObject)
    ensures
        x@.object == x.object@,
        x@.namespace == x.namespace@,
        x@.locator == x.locator@,
        x@.snapshot == x.snapshot,
        x@.shards == x.shards@,
        x@.errors == (texts_view(x.errors@)),
{
}

/// What stands for a list has what stands for each of its items, in order.
pub proof fn law_objects_view_keeps_order(objects: Seq<InconsistentObject>, i: int)
    requires
        0 <= i < objects.len(),
    ensures
        objects_view(objects).len() == objects.len(),
        objects_view(objects)[i] == objects[i]@,
{
}

} // verus!
