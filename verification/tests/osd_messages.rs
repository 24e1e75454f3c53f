use rados::maps::PG;
use rados::msgr::message::{Message, MessageHeader, MessageLengths};
use rados::osd::messages::{
    decode_pg, decode_reply, encode_operation, encode_pg, encode_request, Error, Limits, Operation,
    OperationResult, Request, FLAG_ON_DISK, FLAG_READ, FLAG_WRITE, MESSAGE_OSD_OP,
    MESSAGE_OSD_OP_REPLY, NO_SNAP, OP_APPEND, OP_CREATE, OP_DELETE, OP_FLAG_EXCLUSIVE, OP_READ,
    OP_TRUNCATE, OP_WRITE, OP_WRITE_FULL, OP_ZERO,
};
use rados::protocol::address::EntityAddr;
use rados::wire::{Decoder, Encoder, WireError};

const LIMITS: Limits = Limits {
    max_bytes: 4096,
    max_operations: 4,
};

fn request(operations: &[Operation]) -> Request<'_> {
    Request {
        map_epoch: 9,
        pg: PG {
            pool: 7,
            seed: 3,
            preferred: -1,
        },
        shard: 2,
        sharded: false,
        object_hash: 0x1234_5678,
        pool_id: 7,
        object: b"object",
        locator: b"locator",
        namespace: b"namespace",
        snapshot: NO_SNAP,
        snapshot_sequence: 0,
        write_snapshots: &[],
        transaction_id: 0,
        client_global_id: 0,
        client_incarnation: 0,
        retry: -1,
        flags: 0,
        features: 0x1122_3344_5566_7788,
        operations,
    }
}

#[test]
fn read_request_matches_pinned_go_layout() {
    assert_eq!(NO_SNAP, 0xffff_ffff_ffff_fffe);
    let message = encode_request(
        &request(&[Operation::Read {
            offset: 11,
            length: 22,
        }]),
        LIMITS,
    )
    .expect("request");
    assert_eq!(message.header.message_type, MESSAGE_OSD_OP);
    assert_eq!(message.header.version, 8);
    assert_eq!(message.header.compat_version, 3);
    let mut decoder = Decoder::new(&message.front, LIMITS.max_bytes as usize);
    let (spg_version, mut spg) = decoder.versioned(1);
    assert_eq!(spg_version, 1);
    assert_eq!(decode_pg(&mut spg).expect("pg"), request(&[]).pg);
    assert_eq!(spg.i8(), -1);
    assert_eq!(spg.remaining(), 0);
    assert_eq!(decoder.u32(), 0x1234_5678);
    assert_eq!(decoder.u32(), 9);
    assert_eq!(decoder.u32(), FLAG_READ);
}

#[test]
fn mutation_request_matches_pinned_go_layout() {
    let message = encode_request(
        &request(&[Operation::Write {
            offset: 11,
            data: b"payload".to_vec(),
        }]),
        LIMITS,
    )
    .expect("request");
    assert_eq!(message.data, b"payload");
    assert_eq!(message.lengths.data, 7);
    let mut decoder = Decoder::new(&message.front, LIMITS.max_bytes as usize);
    let (_, mut spg) = decoder.versioned(1);
    decode_pg(&mut spg).expect("pg");
    spg.i8();
    decoder.u32();
    decoder.u32();
    assert_eq!(decoder.u32(), FLAG_WRITE | FLAG_ON_DISK);
}

#[test]
fn mutation_descriptors_preserve_fields_and_payload_lengths() {
    let operations = [
        Operation::Create { exclusive: true },
        Operation::Write {
            offset: 17,
            data: b"xy".to_vec(),
        },
        Operation::WriteFull(b"full".to_vec()),
        Operation::Append(b"abc".to_vec()),
        Operation::Truncate { size: 23 },
        Operation::Zero {
            offset: 29,
            length: 31,
        },
        Operation::Remove,
    ];
    let mut encoder = Encoder::new(4096);
    for operation in &operations {
        encode_operation(&mut encoder, operation);
    }
    let bytes = encoder.finish().expect("descriptors");
    let mut decoder = Decoder::new(&bytes, bytes.len());
    assert_eq!(decoder.u16(), OP_CREATE);
    assert_eq!(decoder.u32(), OP_FLAG_EXCLUSIVE);
    assert_eq!(decoder.raw(28), vec![0; 28]);
    assert_eq!(decoder.u32(), 0);
    assert_eq!(decoder.u16(), OP_WRITE);
    assert_eq!(decoder.u32(), 0);
    assert_eq!(decoder.u64(), 17);
    assert_eq!(decoder.u64(), 2);
    assert_eq!(decoder.raw(12), vec![0; 12]);
    assert_eq!(decoder.u32(), 2);
    assert_eq!(decoder.u16(), OP_WRITE_FULL);
    assert_eq!(decoder.u32(), 0);
    assert_eq!(decoder.u64(), 0);
    assert_eq!(decoder.u64(), 4);
    assert_eq!(decoder.raw(12), vec![0; 12]);
    assert_eq!(decoder.u32(), 4);
    assert_eq!(decoder.u16(), OP_APPEND);
    assert_eq!(decoder.u32(), 0);
    assert_eq!(decoder.u64(), 0);
    assert_eq!(decoder.u64(), 3);
    assert_eq!(decoder.raw(12), vec![0; 12]);
    assert_eq!(decoder.u32(), 3);
    assert_eq!(decoder.u16(), OP_TRUNCATE);
    assert_eq!(decoder.u32(), 0);
    assert_eq!(decoder.u64(), 23);
    assert_eq!(decoder.raw(20), vec![0; 20]);
    assert_eq!(decoder.u32(), 0);
    assert_eq!(decoder.u16(), OP_ZERO);
    assert_eq!(decoder.u32(), 0);
    assert_eq!(decoder.u64(), 29);
    assert_eq!(decoder.u64(), 31);
    assert_eq!(decoder.raw(12), vec![0; 12]);
    assert_eq!(decoder.u32(), 0);
    assert_eq!(decoder.u16(), OP_DELETE);
    assert_eq!(decoder.u32(), 0);
    assert_eq!(decoder.raw(28), vec![0; 28]);
    assert_eq!(decoder.u32(), 0);
    decoder.finish().expect("descriptor fields");

    let request = encode_request(
        &request(&operations),
        Limits {
            max_operations: 7,
            ..LIMITS
        },
    )
    .expect("mutation request");
    assert_eq!(request.data, b"xyfullabc");
}

#[test]
fn request_preserves_erasure_shard_and_snapshot_zero() {
    let mut value = request(&[Operation::Stat]);
    value.sharded = true;
    value.snapshot = 0;
    let message = encode_request(&value, LIMITS).expect("request");
    let mut decoder = Decoder::new(&message.front, LIMITS.max_bytes as usize);
    let (_, mut spg) = decoder.versioned(1);
    decode_pg(&mut spg).expect("pg");
    assert_eq!(spg.i8(), 2);
    let snapshot = u64::from_le_bytes(
        message.front[message.front.len() - 32..][..8]
            .try_into()
            .expect("snapshot bytes"),
    );
    assert_eq!(snapshot, 0);
}

#[test]
fn request_rejects_empty_operations_and_bounds() {
    assert!(matches!(
        encode_request(&request(&[]), LIMITS),
        Err(Error::Wire(WireError::LimitExceeded))
    ));
    let limits = Limits {
        max_bytes: 32,
        max_operations: 1,
    };
    assert!(matches!(
        encode_request(&request(&[Operation::Stat]), limits),
        Err(Error::Wire(WireError::LimitExceeded))
    ));
}

fn reply_message(data: Vec<u8>) -> Message {
    let mut front = Encoder::new(4096);
    front.bytes(b"object");
    encode_pg(
        &mut front,
        PG {
            pool: 7,
            seed: 3,
            preferred: -1,
        },
    );
    front.i64(0);
    front.i32(0);
    front.raw(&[0; 12]);
    front.u32(9);
    front.u32(1);
    front.u16(OP_READ);
    front.raw(&[0; 32]);
    front.u32(u32::try_from(data.len()).expect("data length"));
    front.i32(-1);
    front.i32(0);
    front.raw(&[0; 12]);
    front.u64(44);
    front.bool(false);
    front.raw(&[0; 24]);
    let front = front.finish().expect("reply front");
    Message {
        header: MessageHeader {
            message_type: MESSAGE_OSD_OP_REPLY,
            version: 8,
            compat_version: 3,
            ..MessageHeader::default()
        },
        lengths: MessageLengths {
            front: u32::try_from(front.len()).expect("front length"),
            data: u32::try_from(data.len()).expect("data length"),
            ..MessageLengths::default()
        },
        front,
        data,
        ..Message::default()
    }
}

#[test]
fn reply_decodes_owned_operation_data_and_rejects_mismatch() {
    let message = reply_message(b"payload".to_vec());
    let reply = decode_reply(&message, LIMITS).expect("reply");
    assert_eq!(reply.object, b"object");
    assert_eq!(reply.map_epoch, 9);
    assert_eq!(reply.version, 44);
    assert_eq!(
        reply.operations,
        vec![OperationResult {
            operation: OP_READ,
            code: 0,
            data: b"payload".to_vec(),
        }]
    );
    let mut malformed = message;
    malformed.data.pop();
    assert_eq!(decode_reply(&malformed, LIMITS), Err(Error::Malformed));
}

#[test]
fn a_refused_entry_is_left_behind_as_far_as_it_was_read() {
    let mut pg = vec![2];
    pg.extend_from_slice(&[0; 16]);
    let mut decoder = Decoder::new(&pg, pg.len());
    assert_eq!(decode_pg(&mut decoder), Err(Error::UnsupportedVersion));
    assert_eq!(decoder.remaining(), 16);

    let address = [1, 2, 1, 2, 0, 0, 0, 7, 7, 9];
    let mut decoder = Decoder::new(&address, address.len());
    assert!(EntityAddr::decode(&mut decoder).is_err());
    assert_eq!(decoder.remaining(), 1);
    let mut decoder = Decoder::new(&address[1..], address.len() - 1);
    assert!(EntityAddr::decode(&mut decoder).is_err());
    assert_eq!(decoder.remaining(), address.len() - 2);
}
