use rados::osd::special::{decode_sparse_read, validate_checksum};
use rados::wire::{Encoder, WireError};
use rados::SparseExtent;

#[test]
fn sparse_read_is_owned_bounded_and_exact() {
    let mut encoder = Encoder::new(128);
    encoder.u32(2);
    encoder.u64(10);
    encoder.u64(2);
    encoder.u64(15);
    encoder.u64(3);
    encoder.bytes(b"abcde");
    let wire = encoder.finish().expect("sparse result");
    assert_eq!(
        decode_sparse_read(&wire, 10, 10, 128, 2).expect("decode"),
        vec![
            SparseExtent {
                offset: 10,
                data: b"ab".to_vec(),
            },
            SparseExtent {
                offset: 15,
                data: b"cde".to_vec(),
            },
        ]
    );
    assert_eq!(
        decode_sparse_read(&wire, 10, 10, 128, 1),
        Err(WireError::LimitExceeded)
    );
}

#[test]
fn checksum_count_controls_exact_width() {
    let mut encoder = Encoder::new(32);
    encoder.u32(2);
    encoder.raw(&[1; 8]);
    let wire = encoder.finish().expect("checksum");
    validate_checksum(&wire, 4, 32).expect("checksum");
    assert_eq!(validate_checksum(&wire, 8, 32), Err(WireError::Malformed));
}
