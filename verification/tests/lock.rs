use rados::osd::lock::{
    decode_info, encode_lock, Moment, Request, LOCK_EXCLUSIVE, LOCK_MAY_RENEW, LOCK_SHARED,
};
use rados::osd::watch::ENTITY_CLIENT;
use rados::protocol::address::{Endpoint4, EntityAddr};
use rados::types::Span;
use rados::wire::{Decoder, Encoder, WireError};

#[test]
fn lock_request_matches_frozen_go_fields() {
    let bytes = encode_lock(
        &Request {
            name: "name",
            lock_type: LOCK_SHARED,
            cookie: "cookie",
            tag: "tag",
            description: "description",
            duration: Span {
                seconds: 3,
                nanoseconds: 4,
            },
            renew: true,
        },
        4096,
    )
    .expect("lock");
    let mut decoder = Decoder::new(&bytes, 4096);
    let (version, mut payload) = decoder.versioned(1);
    assert_eq!(version, 1);
    assert_eq!(payload.string(), "name");
    assert_eq!(payload.u8(), LOCK_SHARED);
    assert_eq!(payload.string(), "cookie");
    assert_eq!(payload.string(), "tag");
    assert_eq!(payload.string(), "description");
    assert_eq!(payload.u32(), 3);
    assert_eq!(payload.u32(), 4);
    assert_eq!(payload.u8(), LOCK_MAY_RENEW);
    assert_eq!(payload.remaining(), 0);
    assert!(
        encode_lock(
            &Request {
                name: "",
                lock_type: LOCK_EXCLUSIVE,
                cookie: "cookie",
                tag: "",
                description: "",
                duration: Span {
                    seconds: 0,
                    nanoseconds: 0,
                },
                renew: false,
            },
            64
        )
        .is_err()
    );
}

#[test]
fn lock_info_decodes_owned_holder_and_rejects_bounds_and_modes() {
    let address = EntityAddr::ipv4_v2(Endpoint4 {
        a: 192,
        b: 0,
        c: 2,
        d: 8,
        port: 6800,
    });
    let mut encoder = Encoder::new(4096);
    let mut reply = encoder.nested();
    reply.u32(1);
    let mut identity = reply.nested();
    identity.u8(ENTITY_CLIENT);
    identity.i64(42);
    identity.string("cookie");
    reply.versioned(1, 1, identity);
    let mut info = reply.nested();
    info.u32(9);
    info.u32(10);
    address.encode(&mut info);
    info.string("description");
    reply.versioned(1, 1, info);
    reply.u8(LOCK_EXCLUSIVE);
    reply.string("tag");
    encoder.versioned(1, 1, reply);
    let data = encoder.finish().expect("reply");
    let decoded = decode_info(&data, 4096, 2).expect("lock info");
    assert_eq!(decoded.lock_type, LOCK_EXCLUSIVE);
    assert_eq!(decoded.tag, "tag");
    assert_eq!(decoded.holders[0].client, 42);
    assert_eq!(decoded.holders[0].cookie, "cookie");
    assert_eq!(decoded.holders[0].address, "192.0.2.8:6800");
    assert_eq!(decoded.holders[0].description, "description");
    assert_eq!(
        decoded.holders[0].expiration,
        Moment {
            seconds: 9,
            nanoseconds: 10,
        }
    );
    assert_eq!(decode_info(&data, 4096, 0), Err(WireError::LimitExceeded));

    let mut invalid = data.clone();
    let mode = invalid.len() - 8;
    invalid[mode] = 3;
    assert_eq!(decode_info(&invalid, 4096, 2), Err(WireError::Malformed));
}
