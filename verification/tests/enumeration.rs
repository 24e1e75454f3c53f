use rados::osd::backoff::{decode_hobject, encode_hobject, HObject};
use rados::osd::enumeration::{decode_page, encode_operation};
use rados::osd::messages::{Operation, NO_SNAP};
use rados::wire::{Decoder, Encoder, WireError};

fn cursor() -> HObject {
    HObject {
        key: vec![0, 0xff],
        object: b"object".to_vec(),
        snapshot: NO_SNAP,
        hash: 0x1234_5678,
        max: false,
        namespace: vec![b'n', 0],
        pool: 7,
    }
}

#[test]
fn pgnls_operation_preserves_cursor_and_union_fields() {
    let operation = encode_operation(&cursor(), 19, 23, 4096).expect("operation");
    let Operation::PGNList {
        cursor: data,
        cursor_hash,
        count,
        start_epoch,
    } = operation
    else {
        panic!("PGNLS operation");
    };
    assert_eq!(cursor_hash, 0x1234_5678);
    assert_eq!((count, start_epoch), (19, 23));
    let mut decoder = Decoder::new(&data, 4096);
    assert_eq!(decode_hobject(&mut decoder).expect("cursor"), cursor());
    assert_eq!(decoder.remaining(), 0);
    assert!(encode_operation(&cursor(), 0, 23, 4096).is_err());
}

#[test]
fn pgnls_page_is_binary_safe_bounded_and_exact() {
    let mut encoder = Encoder::new(4096);
    let mut payload = encoder.nested();
    encode_hobject(&mut payload, &cursor());
    payload.u32(2);
    payload.bytes(&[]);
    payload.bytes(&[0, 0xff]);
    payload.bytes(&[]);
    payload.bytes(&[b'n', 0]);
    payload.bytes(b"two");
    payload.bytes(&[0x80]);
    encoder.versioned(1, 1, payload);
    let data = encoder.finish().expect("page");
    let page = decode_page(&data, 4096, 2).expect("decode");
    assert_eq!(page.next, cursor());
    assert_eq!(page.entries[0].object, [0, 0xff]);
    assert_eq!(page.entries[1].namespace, [b'n', 0]);
    assert_eq!(decode_page(&data, 4096, 1), Err(WireError::LimitExceeded));

    let mut trailing = data;
    trailing.push(0);
    assert_eq!(decode_page(&trailing, 4096, 2), Err(WireError::Malformed));
}
