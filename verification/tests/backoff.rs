use rados::maps::PG;
use rados::osd::backoff::{
    compare_hobject, decode_backoff, encode_acknowledgment, Backoff, HObject, BACKOFF_ACK_BLOCK,
    BACKOFF_BLOCK,
};
use rados::osd::messages::{Limits, NO_SNAP};
use std::cmp::Ordering;

const LIMITS: Limits = Limits {
    max_bytes: 4096,
    max_operations: 4,
};

fn object(name: &[u8]) -> HObject {
    HObject {
        key: Vec::new(),
        object: name.to_vec(),
        snapshot: NO_SNAP,
        hash: 0x8000_0000,
        max: false,
        namespace: b"space".to_vec(),
        pool: 7,
    }
}

fn backoff() -> Backoff {
    Backoff {
        pg: PG {
            pool: 7,
            seed: 3,
            preferred: -1,
        },
        shard: -1,
        map_epoch: 9,
        operation: BACKOFF_BLOCK,
        id: 42,
        begin: object(b"a"),
        end: object(b"z"),
    }
}

#[test]
fn backoff_round_trips_through_acknowledgment_layout() {
    let value = backoff();
    let mut message = encode_acknowledgment(&value, LIMITS).expect("ack");
    message.front[28] = BACKOFF_BLOCK;
    let decoded = decode_backoff(&message, LIMITS).expect("backoff");
    assert_eq!(decoded, value);
    let acknowledgment = encode_acknowledgment(&decoded, LIMITS).expect("ack");
    assert_eq!(acknowledgment.front[28], BACKOFF_ACK_BLOCK);
}

#[test]
fn backoff_ranges_are_half_open_and_bit_reversed() {
    let value = backoff();
    assert!(value.contains(&object(b"a")));
    assert!(value.contains(&object(b"m")));
    assert!(!value.contains(&object(b"z")));
    assert_eq!(
        compare_hobject(
            &HObject {
                hash: 1,
                ..object(b"")
            },
            &HObject {
                hash: 2,
                ..object(b"")
            },
        ),
        Ordering::Greater
    );
}

#[test]
fn malformed_backoff_is_rejected() {
    let value = backoff();
    let mut message = encode_acknowledgment(&value, LIMITS).expect("ack");
    message.front.pop();
    assert!(decode_backoff(&message, LIMITS).is_err());
    let mut message = encode_acknowledgment(&value, LIMITS).expect("ack");
    message.data.push(1);
    assert!(decode_backoff(&message, LIMITS).is_err());
}
