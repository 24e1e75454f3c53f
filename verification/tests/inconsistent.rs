use rados::osd::inconsistent::{decode_scrub_list, encode_scrub_list, InconsistentObject};
use rados::osd::messages::Operation;
use rados::wire::{Decoder, Encoder, WireError};

#[test]
fn scrub_list_request_and_result_match_frozen_layout() {
    let start = InconsistentObject {
        object: b"before".to_vec(),
        namespace: b"ns".to_vec(),
        snapshot: 9,
        ..InconsistentObject::default()
    };
    let operation = encode_scrub_list(17, &start, 25, 4096).expect("operation");
    let Operation::ScrubList(data) = operation else {
        panic!("scrub list operation");
    };
    let mut request = Decoder::new(&data, 4096);
    let (version, mut payload) = request.versioned(1);
    assert_eq!(version, 1);
    assert_eq!(payload.u32(), 17);
    assert_eq!(payload.u32(), 0);
    assert_eq!(payload.bytes(), b"before");
    assert_eq!(payload.bytes(), b"ns");
    assert_eq!(payload.u64(), 9);
    assert_eq!(payload.u64(), 25);
    payload.finish().expect("request payload");

    let mut item = Encoder::new(4096);
    let mut entry = item.nested();
    entry.u64(1 << 4);
    let mut object = entry.nested();
    object.bytes(b"broken");
    object.bytes(b"ns");
    object.bytes(b"key");
    object.u64(3);
    entry.versioned(1, 1, object);
    entry.u64(8);
    entry.u32(1);
    let mut shard = entry.nested();
    shard.i32(4);
    shard.i8(1);
    entry.versioned(1, 1, shard);
    let mut info = entry.nested();
    info.u64(1 << 1);
    info.bool(true);
    entry.versioned(3, 3, info);
    entry.u64(1 << 3);
    item.versioned(2, 2, entry);
    let encoded_item = item.finish().expect("item");

    let mut result = Encoder::new(4096);
    let mut page = result.nested();
    page.u32(18);
    page.u32(1);
    page.bytes(&encoded_item);
    result.versioned(1, 1, page);
    let result = result.finish().expect("result");
    let (interval, objects) = decode_scrub_list(&result, 4096, 8).expect("decode");
    assert_eq!(interval, 18);
    assert_eq!(objects.len(), 1);
    assert_eq!(objects[0].object, b"broken");
    assert_eq!(objects[0].namespace, b"ns");
    assert_eq!(objects[0].locator, b"key");
    assert_eq!(objects[0].snapshot, 3);
    assert_eq!(objects[0].shards, vec![4]);
    assert_eq!(
        objects[0].errors,
        vec![
            "data_digest_mismatch".to_owned(),
            "shard_missing".to_owned(),
            "shard_read_error".to_owned()
        ]
    );
}

#[test]
fn scrub_list_decode_rejects_malformed_and_overbound_payloads() {
    assert_eq!(decode_scrub_list(&[], 0, 1), Err(WireError::LimitExceeded));
    assert_eq!(decode_scrub_list(&[], 1, 0), Err(WireError::LimitExceeded));

    let mut wrong_version = Encoder::new(128);
    let mut payload = wrong_version.nested();
    payload.u32(0);
    payload.u32(0);
    wrong_version.versioned(2, 2, payload);
    assert!(matches!(
        decode_scrub_list(&wrong_version.finish().expect("bytes"), 128, 4),
        Err(WireError::UnsupportedVersion {
            local: 1,
            required: 2
        })
    ));

    let mut excessive = Encoder::new(128);
    let mut payload = excessive.nested();
    payload.u32(0);
    payload.u32(5);
    excessive.versioned(1, 1, payload);
    assert_eq!(
        decode_scrub_list(&excessive.finish().expect("bytes"), 128, 4),
        Err(WireError::LimitExceeded)
    );
}

#[test]
fn daemons_and_errors_are_listed_in_order_and_unknown_errors_are_named() {
    let mut item = Encoder::new(4096);
    let mut entry = item.nested();
    entry.u64(1 << 40 | 1 << 11);
    let mut object = entry.nested();
    object.bytes(b"broken");
    object.bytes(b"");
    object.bytes(b"");
    object.u64(3);
    entry.versioned(1, 1, object);
    entry.u64(8);
    entry.u32(2);
    for daemon in [7, -2] {
        let mut shard = entry.nested();
        shard.i32(daemon);
        shard.i8(1);
        entry.versioned(1, 1, shard);
        let mut info = entry.nested();
        info.u64(1 << 1);
        info.bool(true);
        entry.versioned(3, 3, info);
    }
    entry.u64(1 << 14);
    item.versioned(2, 2, entry);
    let encoded = item.finish().expect("item");
    let mut result = Encoder::new(4096);
    let mut page = result.nested();
    page.u32(18);
    page.u32(1);
    page.bytes(&encoded);
    result.versioned(1, 1, page);
    let (_, objects) =
        decode_scrub_list(&result.finish().expect("result"), 4096, 8).expect("decode");
    assert_eq!(objects[0].shards, vec![-2, 7]);
    assert_eq!(
        objects[0].errors,
        vec![
            "info_missing".to_owned(),
            "shard_missing".to_owned(),
            "size_too_large".to_owned(),
            "unknown_0x10000000000".to_owned()
        ]
    );
}
