//! What a scrub found is read as it was written, and named.

use super::inconsistent::{
    all_errors, daemons, error_texts, get_shard, hex_digit, hexadecimal, known_names,
    object_decoding, object_error_names, object_name, object_shards, scrub_decoding,
    scrub_encoding, scrub_payload, shard_daemon, shard_decoder, shard_error_names, shard_info,
    item_decoder, InconsistentView,
};
use crate::sorting::{lemma_text_order, number_order, text_order};
use crate::text::{digits_value, number};
use crate::wire::{
    bool_byte, bytes_less, concatenated, get_bytes, get_many, get_u32, get_u64, get_versioned,
    input, law_bytes, law_many, law_u32, law_u64, law_versioned, le32, le64, prefixed,
    unsigned32, unsigned8, versioned, Input, WireError,
};
use vstd::prelude::*;
use vstd::relations::total_ordering;
use vstd::utf8::encode_utf8;

verus! {

broadcast use {crate::wire::group_integers, crate::wire::group_reads};

/// A listing of findings names the interval, where to start, and how many findings to bring.
#[verifier::rlimit(40)]
pub proof fn law_scrub_request_reads_back(
    interval: u32,
    start: InconsistentView,
    maximum: u64,
    max_bytes: u32,
)
    ensures
        maximum == 0 || max_bytes == 0 ==> scrub_encoding(interval, start, maximum, max_bytes)
            is Err,
        scrub_encoding(interval, start, maximum, max_bytes) matches Ok(op) ==> op is ScrubList && {
            let (version, payload, rest) = get_versioned(input(op->ScrubList_0), 1);
            let (interval_read, d1) = get_u32(payload);
            let (kind_read, d2) = get_u32(d1);
            let (object_read, d3) = get_bytes(d2);
            let (namespace_read, d4) = get_bytes(d3);
            let (snapshot_read, d5) = get_u64(d4);
            &&& version == 1
            &&& rest == input(Seq::empty())
            &&& interval_read == interval
            &&& kind_read == 0
            &&& object_read == start.object
            &&& namespace_read == start.namespace
            &&& snapshot_read == start.snapshot
            &&& get_u64(d5) == (maximum, input(Seq::empty()))
        },
{
    if scrub_encoding(interval, start, maximum, max_bytes) is Ok {
        let none = Seq::<u8>::empty();
        let payload = scrub_payload(interval, start, maximum);
        let whole = versioned(1, 1, payload);
        assert(whole =~= whole + none);
        assert(le64(maximum) =~= le64(maximum) + none);
        law_versioned(1, 1, payload, 1, none);
        law_u64(maximum, none);
    }
}

// ---------------------------------------------------------------------------
// Names of errors
// ---------------------------------------------------------------------------

proof fn lemma_named(bits: u64, names: Seq<(u64, Seq<char>)>, i: int)
    requires
        0 <= i < names.len(),
        bits & names[i].0 != 0,
    ensures
        known_names(bits, names).contains(names[i].1),
    decreases names.len(),
{
    let shorter = names.drop_last();
    let found = known_names(bits, names);
    if i == names.len() - 1 {
        assert(found.last() == names[i].1);
        assert(found[found.len() - 1] == names[i].1);
    } else {
        lemma_named(bits, shorter, i);
        let before = known_names(bits, shorter);
        let k = choose|k: int| 0 <= k < before.len() && before[k] == names[i].1;
        assert(found[k] == names[i].1);
    }
}

proof fn lemma_texts_hold_names(bits: u64, names: Seq<(u64, Seq<char>)>, i: int)
    requires
        0 <= i < names.len(),
        bits & names[i].0 != 0,
    ensures
        error_texts(bits, names).contains(names[i].1),
{
    lemma_named(bits, names, i);
    let found = known_names(bits, names);
    let k = choose|k: int| 0 <= k < found.len() && found[k] == names[i].1;
    assert(error_texts(bits, names)[k] == names[i].1);
}

/// Each error of an object is named by its own bit.
pub proof fn law_object_errors_are_named(bits: u64)
    ensures
        object_error_names().len() == 9,
        ({
            let found = error_texts(bits, object_error_names());
            &&& bits & 0x2 != 0 ==> found.contains("object_info_inconsistency"@)
            &&& bits & 0x10 != 0 ==> found.contains("data_digest_mismatch"@)
            &&& bits & 0x20 != 0 ==> found.contains("omap_digest_mismatch"@)
            &&& bits & 0x40 != 0 ==> found.contains("size_mismatch"@)
            &&& bits & 0x80 != 0 ==> found.contains("attr_value_mismatch"@)
            &&& bits & 0x100 != 0 ==> found.contains("attr_name_mismatch"@)
            &&& bits & 0x200 != 0 ==> found.contains("snapset_inconsistency"@)
            &&& bits & 0x400 != 0 ==> found.contains("hinfo_inconsistency"@)
            &&& bits & 0x800 != 0 ==> found.contains("size_too_large"@)
        }),
{
    let names = object_error_names();
    assert forall|i: int| 0 <= i < names.len() && bits & (#[trigger] names[i]).0
        != 0 implies error_texts(bits, names).contains(names[i].1) by {
        lemma_texts_hold_names(bits, names, i);
    }
    assert(names[0].0 == 0x2 && names[1].0 == 0x10 && names[2].0 == 0x20 && names[3].0 == 0x40
        && names[4].0 == 0x80 && names[5].0 == 0x100 && names[6].0 == 0x200 && names[7].0 == 0x400
        && names[8].0 == 0x800);
}

/// Each error of a shard is named by its own bit.
pub proof fn law_shard_errors_are_named(bits: u64)
    ensures
        shard_error_names().len() == 15,
        ({
            let found = error_texts(bits, shard_error_names());
            &&& bits & 0x2 != 0 ==> found.contains("shard_missing"@)
            &&& bits & 0x4 != 0 ==> found.contains("shard_stat_error"@)
            &&& bits & 0x8 != 0 ==> found.contains("shard_read_error"@)
            &&& bits & 0x200 != 0 ==> found.contains("data_digest_mismatch_info"@)
            &&& bits & 0x400 != 0 ==> found.contains("omap_digest_mismatch_info"@)
            &&& bits & 0x800 != 0 ==> found.contains("size_mismatch_info"@)
            &&& bits & 0x1000 != 0 ==> found.contains("shard_ec_hash_mismatch"@)
            &&& bits & 0x2000 != 0 ==> found.contains("shard_ec_size_mismatch"@)
            &&& bits & 0x4000 != 0 ==> found.contains("info_missing"@)
            &&& bits & 0x8000 != 0 ==> found.contains("info_corrupted"@)
            &&& bits & 0x1_0000 != 0 ==> found.contains("snapset_missing"@)
            &&& bits & 0x2_0000 != 0 ==> found.contains("snapset_corrupted"@)
            &&& bits & 0x4_0000 != 0 ==> found.contains("object_size_info_mismatch"@)
            &&& bits & 0x8_0000 != 0 ==> found.contains("hinfo_missing"@)
            &&& bits & 0x10_0000 != 0 ==> found.contains("hinfo_corrupted"@)
        }),
{
    let names = shard_error_names();
    assert forall|i: int| 0 <= i < names.len() && bits & (#[trigger] names[i]).0
        != 0 implies error_texts(bits, names).contains(names[i].1) by {
        lemma_texts_hold_names(bits, names, i);
    }
    assert(names[0].0 == 0x2 && names[1].0 == 0x4 && names[2].0 == 0x8 && names[3].0 == 0x200
        && names[4].0 == 0x400 && names[5].0 == 0x800 && names[6].0 == 0x1000 && names[7].0
        == 0x2000 && names[8].0 == 0x4000 && names[9].0 == 0x8000 && names[10].0 == 0x1_0000
        && names[11].0 == 0x2_0000 && names[12].0 == 0x4_0000 && names[13].0 == 0x8_0000
        && names[14].0 == 0x10_0000);
}

/// A number in hexadecimal reads back.
pub proof fn law_hexadecimal_reads_back(n: nat)
    ensures
        number(hexadecimal(n), 16) == Some(n),
        hexadecimal(n).len() > 0,
    decreases n,
{
    if n >= 16 {
        law_hexadecimal_reads_back(n / 16);
        assert(hexadecimal(n).drop_last() =~= hexadecimal(n / 16));
        assert(hexadecimal(n).last() == hex_digit(n % 16));
        assert((n / 16) * 16 + n % 16 == n);
    } else {
        assert(hexadecimal(n).drop_last() =~= Seq::empty());
        reveal_with_fuel(digits_value, 2);
    }
}

// ---------------------------------------------------------------------------
// Findings
// ---------------------------------------------------------------------------

/// A shard on the wire: the daemon that has it, which shard it is, and the errors that were found.
/// What else there is to say of a shard that is there does not matter here.
pub open spec fn shard_bytes(daemon: i32, shard: i8, errors: u64, primary: bool) -> Seq<u8> {
    versioned(1, 1, le32(unsigned32(daemon)) + seq![unsigned8(shard)]) + versioned(
        3,
        3,
        le64(errors) + (bool_byte(primary) + if errors & 2 == 0 {
            le32(0) + (le64(0) + (bool_byte(false) + (le32(0) + (bool_byte(false) + (le32(0)
                + bool_byte(false))))))
        } else {
            Seq::empty()
        }),
    )
}

/// A shard is read as it was written: the daemon that has it, and its errors.
#[verifier::rlimit(60)]
pub proof fn law_shard_reads_back(
    daemon: i32,
    shard: i8,
    errors: u64,
    primary: bool,
    max_entries: u32,
    tail: Seq<u8>,
)
    ensures
        get_shard(input(shard_bytes(daemon, shard, errors, primary) + tail), max_entries) == Ok::<
            ((i32, u64), Input),
            WireError,
        >(((daemon, errors), input(tail))),
{
    reveal(get_shard);
    reveal(shard_daemon);
    reveal(shard_info);
    let none = Seq::<u8>::empty();
    let who = le32(unsigned32(daemon)) + seq![unsigned8(shard)];
    let last = seq![unsigned8(shard)];
    assert(last =~= last + none);
    let f = bool_byte(false);
    assert(f =~= f + none);
    let rest = if errors & 2 == 0 {
        le32(0) + (le64(0) + (f + (le32(0) + (f + (le32(0) + f)))))
    } else {
        none
    };
    let what = le64(errors) + (bool_byte(primary) + rest);
    let second = versioned(3, 3, what) + tail;
    assert(shard_bytes(daemon, shard, errors, primary) + tail =~= versioned(1, 1, who) + second);
    law_versioned(1, 1, who, 1, second);
    law_versioned(3, 3, what, 3, tail);
    crate::wire::law_i32(daemon, last);
    crate::wire::law_i8(shard, none);
    law_u64(errors, bool_byte(primary) + rest);
    crate::wire::law_bool(primary, rest);
    if errors & 2 == 0 {
        let r1 = le64(0) + (f + (le32(0) + (f + (le32(0) + f))));
        law_u32(0, r1);
        let skipped = super::inconsistent::skip_pairs(input(r1), 0);
        assert(skipped == input(r1));
        law_u64(0, f + (le32(0) + (f + (le32(0) + f))));
        crate::wire::law_bool(false, le32(0) + (f + (le32(0) + f)));
        law_u32(0, f + (le32(0) + f));
        crate::wire::law_bool(false, le32(0) + f);
        law_u32(0, f);
        crate::wire::law_bool(false, none);
    }
}

/// A finding on the wire: the errors of the object, its name, and what was found of its shards.
pub open spec fn finding_bytes(
    errors: u64,
    object: Seq<u8>,
    namespace: Seq<u8>,
    locator: Seq<u8>,
    snapshot: u64,
    user_version: u64,
    shards: Seq<(i32, u64)>,
    shard: i8,
    union: u64,
) -> Seq<u8> {
    versioned(
        2,
        2,
        le64(errors) + (versioned(
            1,
            1,
            prefixed(object) + (prefixed(namespace) + (prefixed(locator) + le64(snapshot))),
        ) + (le64(user_version) + (le32(shards.len() as u32) + (concatenated(
            shards,
            shard_encoder(shard),
        ) + le64(union))))),
    )
}

pub open spec fn shard_encoder(shard: i8) -> spec_fn((i32, u64)) -> Seq<u8> {
    |s: (i32, u64)| shard_bytes(s.0, shard, s.1, false)
}

/// A finding is read as it was written: the object, the daemons that have its shards, and all errors
/// that were found of it and of any shard, by their names.
#[verifier::rlimit(80)]
#[verifier::spinoff_prover]
pub proof fn law_finding_reads_back(
    errors: u64,
    object: Seq<u8>,
    namespace: Seq<u8>,
    locator: Seq<u8>,
    snapshot: u64,
    user_version: u64,
    shards: Seq<(i32, u64)>,
    shard: i8,
    union: u64,
    max_bytes: u32,
    max_entries: u32,
)
    requires
        shards.len() <= max_entries,
        finding_bytes(
            errors,
            object,
            namespace,
            locator,
            snapshot,
            user_version,
            shards,
            shard,
            union,
        ).len() <= max_bytes,
    ensures
        object_decoding(
            finding_bytes(
                errors,
                object,
                namespace,
                locator,
                snapshot,
                user_version,
                shards,
                shard,
                union,
            ),
            max_bytes,
            max_entries,
        ) matches Ok(found) && {
            &&& found.object == object
            &&& found.namespace == namespace
            &&& found.locator == locator
            &&& found.snapshot == snapshot
            &&& found.shards.to_multiset() == Seq::new(
                shards.len(),
                |i: int| shards[i].0,
            ).to_multiset()
            &&& found.errors.to_multiset() == (error_texts(errors, object_error_names())
                + error_texts(all_errors(shards) | union, shard_error_names())).to_multiset()
            &&& forall|i: int, j: int|
                0 <= i < j < found.shards.len() ==> found.shards[i] <= found.shards[j]
            &&& forall|i: int, j: int|
                0 <= i < j < found.errors.len() ==> !bytes_less(
                    encode_utf8(#[trigger] found.errors[j]),
                    encode_utf8(#[trigger] found.errors[i]),
                )
        },
{
    reveal(object_decoding);
    reveal(object_name);
    reveal(object_shards);
    let none = Seq::<u8>::empty();
    let name = prefixed(object) + (prefixed(namespace) + (prefixed(locator) + le64(snapshot)));
    let all = concatenated(shards, shard_encoder(shard));
    let end = le64(union);
    let t3 = all + end;
    let t2 = le32(shards.len() as u32) + t3;
    let t1 = le64(user_version) + t2;
    let payload = le64(errors) + (versioned(1, 1, name) + t1);
    let whole = versioned(2, 2, payload);
    assert(whole =~= whole + none);
    assert(le64(snapshot) =~= le64(snapshot) + none);
    assert(end =~= end + none);
    law_versioned(2, 2, payload, 2, none);
    law_u64(errors, versioned(1, 1, name) + t1);
    law_versioned(1, 1, name, 1, t1);
    assert(object_name(input(name)) == Ok::<(Seq<u8>, Seq<u8>, Seq<u8>, u64), WireError>(
        (object, namespace, locator, snapshot),
    ));
    law_u64(user_version, t2);
    law_u32(shards.len() as u32, t3);
    assert forall|i: int, rest: Seq<u8>| 0 <= i < shards.len() implies #[trigger] (shard_decoder(
        max_entries,
    ))(input(shard_encoder(shard)(shards[i]) + rest)) == Ok::<((i32, u64), Input), WireError>(
        (shards[i], input(rest)),
    ) by {
        law_shard_reads_back(shards[i].0, shard, shards[i].1, false, max_entries, rest);
    }
    law_many(shards, shard_encoder(shard), shard_decoder(max_entries), end);
    law_u64(union, none);
    assert(object_shards(input(t1), max_entries) == Ok::<(Seq<(i32, u64)>, u64), WireError>(
        (shards, all_errors(shards) | union),
    ));
    let texts = error_texts(errors, object_error_names()) + error_texts(
        all_errors(shards) | union,
        shard_error_names(),
    );
    assert(daemons(shards) =~= Seq::new(shards.len(), |i: int| shards[i].0));
    lemma_text_order();
    assert(total_ordering(number_order()));
    daemons(shards).lemma_sort_by_ensures(number_order());
    texts.lemma_sort_by_ensures(text_order());
    let sorted = daemons(shards).sort_by(number_order());
    assert forall|i: int, j: int| 0 <= i < j < sorted.len() implies sorted[i] <= sorted[j] by {
        assert(number_order()(sorted[i], sorted[j]));
    }
    let named = texts.sort_by(text_order());
    assert forall|i: int, j: int| 0 <= i < j < named.len() implies !bytes_less(
        encode_utf8(#[trigger] named[j]),
        encode_utf8(#[trigger] named[i]),
    ) by {
        assert(text_order()(named[i], named[j]));
    }
}

/// The errors of several shards are those of any of them.
pub proof fn law_errors_of_shards_add_up(shards: Seq<(i32, u64)>, mask: u64)
    ensures
        all_errors(shards) & mask != 0 <==> exists|i: int|
            0 <= i < shards.len() && (#[trigger] shards[i]).1 & mask != 0,
    decreases shards.len(),
{
    if shards.len() == 0 {
        assert(0u64 & mask == 0) by (bit_vector);
    } else {
        let shorter = shards.drop_last();
        let a = all_errors(shorter);
        let b = shards.last().1;
        law_errors_of_shards_add_up(shorter, mask);
        assert((a | b) & mask != 0 <==> a & mask != 0 || b & mask != 0) by (bit_vector);
        if b & mask != 0 {
            assert(shards[shards.len() - 1].1 & mask != 0);
        }
        if a & mask != 0 {
            let i = choose|i: int| 0 <= i < shorter.len() && (#[trigger] shorter[i]).1 & mask != 0;
            assert(shards[i].1 & mask != 0);
        }
        if exists|i: int| 0 <= i < shards.len() && (#[trigger] shards[i]).1 & mask != 0 {
            let i = choose|i: int| 0 <= i < shards.len() && (#[trigger] shards[i]).1 & mask != 0;
            if i < shorter.len() {
                assert(shorter[i].1 & mask != 0);
            }
        }
    }
}

/// A page of findings is read as it was written: its interval, and each finding as it stands alone.
#[verifier::rlimit(40)]
pub proof fn law_scrub_page_reads_back(
    interval: u32,
    items: Seq<Seq<u8>>,
    max_bytes: u32,
    max_entries: u32,
)
    requires
        0 < max_entries,
        items.len() <= max_entries,
        forall|i: int|
            0 <= i < items.len() ==> object_decoding(#[trigger] items[i], max_bytes, max_entries)
                is Ok,
        versioned(
            1,
            1,
            le32(interval) + (le32(items.len() as u32) + items_bytes(items)),
        ).len() <= max_bytes,
    ensures
        scrub_decoding(
            versioned(1, 1, le32(interval) + (le32(items.len() as u32) + items_bytes(items))),
            max_bytes,
            max_entries,
        ) == Ok::<(u32, Seq<InconsistentView>), WireError>(
            (
                interval,
                Seq::new(
                    items.len(),
                    |i: int| object_decoding(items[i], max_bytes, max_entries)->Ok_0,
                ),
            ),
        ),
{
    let none = Seq::<u8>::empty();
    let all = items_bytes(items);
    let t1 = le32(items.len() as u32) + all;
    let payload = le32(interval) + t1;
    let whole = versioned(1, 1, payload);
    assert(whole =~= whole + none);
    assert(all =~= all + none);
    law_versioned(1, 1, payload, 1, none);
    law_u32(interval, t1);
    law_u32(items.len() as u32, all);
    lemma_items(items, none, max_bytes, max_entries);
}

/// Encoded findings, each behind its length.
pub open spec fn items_bytes(items: Seq<Seq<u8>>) -> Seq<u8>
    decreases items.len(),
{
    if items.len() == 0 {
        Seq::empty()
    } else {
        items_bytes(items.drop_last()) + prefixed(items.last())
    }
}

proof fn lemma_items(items: Seq<Seq<u8>>, tail: Seq<u8>, max_bytes: u32, max_entries: u32)
    requires
        items_bytes(items).len() <= u32::MAX,
        forall|i: int|
            0 <= i < items.len() ==> object_decoding(#[trigger] items[i], max_bytes, max_entries)
                is Ok,
    ensures
        get_many(
            input(items_bytes(items) + tail),
            items.len(),
            item_decoder(max_bytes, max_entries),
        ) == Ok::<(Seq<InconsistentView>, Input), WireError>(
            (
                Seq::new(
                    items.len(),
                    |i: int| object_decoding(items[i], max_bytes, max_entries)->Ok_0,
                ),
                input(tail),
            ),
        ),
    decreases items.len(),
{
    let all = items_bytes(items);
    let read = Seq::new(
        items.len(),
        |i: int| object_decoding(items[i], max_bytes, max_entries)->Ok_0,
    );
    if items.len() == 0 {
        assert(all + tail =~= tail);
        assert(read =~= Seq::empty());
    } else {
        let shorter = items.drop_last();
        let last = prefixed(items.last());
        assert(forall|i: int| 0 <= i < shorter.len() ==> #[trigger] shorter[i] == items[i]);
        lemma_items(shorter, last + tail, max_bytes, max_entries);
        assert(all + tail =~= items_bytes(shorter) + (last + tail));
        law_bytes(items.last(), tail);
        assert(items.last() == items[items.len() - 1]);
        let before = Seq::new(
            shorter.len(),
            |i: int| object_decoding(shorter[i], max_bytes, max_entries)->Ok_0,
        );
        assert(read =~= before.push(object_decoding(items.last(), max_bytes, max_entries)->Ok_0));
    }
}

} // verus!
