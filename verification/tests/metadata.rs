use rados::osd::metadata::{
    decode_map, decode_page, encode_compare, encode_keys, encode_list_request, encode_map,
    encode_range, Entry,
};
use rados::wire::{Encoder, WireError};

#[test]
fn metadata_map_is_binary_sorted_and_owned() {
    let encoded = encode_map(
        &vec![
            Entry {
                key: vec![0xff],
                value: vec![3],
            },
            Entry {
                key: vec![0, b'a'],
                value: vec![0, 1],
            },
            Entry {
                key: vec![b'b'],
                value: vec![2],
            },
        ],
        128,
    )
    .expect("map");
    assert_eq!(
        decode_map(&encoded, 128, 3).expect("decode"),
        vec![
            Entry {
                key: vec![0, b'a'],
                value: vec![0, 1]
            },
            Entry {
                key: vec![b'b'],
                value: vec![2]
            },
            Entry {
                key: vec![0xff],
                value: vec![3]
            },
        ]
    );
}

#[test]
fn duplicate_unordered_and_trailing_metadata_are_rejected() {
    assert_eq!(
        encode_keys(&vec![b"same".to_vec(), b"same".to_vec()], 64),
        Err(WireError::Malformed)
    );
    let mut unordered = Encoder::new(64);
    unordered.u32(2);
    unordered.bytes(b"b");
    unordered.bytes(b"1");
    unordered.bytes(b"a");
    unordered.bytes(b"2");
    assert_eq!(
        decode_map(&unordered.finish().expect("bytes"), 64, 2),
        Err(WireError::Malformed)
    );
    let mut trailing = encode_map(&vec![], 64).expect("map");
    trailing.push(0);
    assert_eq!(decode_map(&trailing, 64, 1), Err(WireError::Malformed));
}

#[test]
fn list_page_range_compare_and_limits_match_oracle() {
    assert_eq!(
        encode_list_request(b"after", 3, 64).expect("list"),
        b"\x05\0\0\0after\x03\0\0\0\0\0\0\0\0\0\0\0"
    );
    assert_eq!(encode_range(b"z", b"a", 64), Err(WireError::Malformed));
    assert_eq!(
        encode_compare(b"key", b"value", -2, 64).expect("compare"),
        b"\x01\0\0\0\x03\0\0\0key\x05\0\0\0value\xfe\xff\xff\xff"
    );

    let mut page = encode_map(
        &vec![Entry {
            key: b"key".to_vec(),
            value: b"value".to_vec(),
        }],
        64,
    )
    .expect("page");
    page.push(1);
    assert!(decode_page(&page, 64, 1).expect("decode").1);
    assert_eq!(decode_page(&page, 64, 0), Err(WireError::LimitExceeded));
}
