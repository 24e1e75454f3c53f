use rados::msgr::message::Message;
use rados::msgr::session::SessionError;
use rados::osd::backoff::HObject;
use rados::osd::client::{
    check_mutation, check_options, check_read, classify_cancel, classify_refusal, classify_result,
    map_command_message_error, map_message_error, map_request_error, map_session_error,
    preserve_unknown, route_address, take_transaction_id, CompoundResult, Error,
    Mutation, UnknownCause,
};
use rados::osd::command::Error as CommandError;
use rados::osd::messages::{Error as MessageError, Operation, OperationResult, NO_SNAP};
use rados::osd::pager::{list_inconsistent_objects, list_objects, listed_objects};
use rados::protocol::address::{Endpoint4, EntityAddr, EntityAddrVec};
use rados::wire::{Encoder, WireError};

#[test]
fn failures_of_sessions_and_messages_have_meanings() {
    assert_eq!(map_session_error(SessionError::Closed), Error::Closed);
    assert_eq!(
        map_session_error(SessionError::TooManyInFlight),
        Error::QueueSaturated
    );
    assert_eq!(
        map_session_error(SessionError::UnsupportedFeature),
        Error::Unsupported
    );
    assert_eq!(
        map_session_error(SessionError::OutcomeUnknown),
        Error::NotConnected
    );
    assert_eq!(
        map_request_error(SessionError::OutcomeUnknown, true),
        Error::OutcomeUnknown(UnknownCause::Transport)
    );
    assert_eq!(
        map_request_error(SessionError::OutcomeUnknown, false),
        Error::NotConnected
    );
    assert_eq!(
        map_message_error(MessageError::Wire(WireError::LimitExceeded)),
        Error::LimitExceeded
    );
    assert_eq!(
        map_message_error(MessageError::Malformed),
        Error::MalformedReply
    );
    assert_eq!(
        map_command_message_error(CommandError::UnsupportedVersion),
        Error::Unsupported
    );
    assert_eq!(
        preserve_unknown(Error::Closed, Some(UnknownCause::Timeout)),
        Error::OutcomeUnknown(UnknownCause::Timeout)
    );
    assert_eq!(preserve_unknown(Error::Closed, None), Error::Closed);
}

#[test]
fn cancelled_requests_are_told_apart() {
    let reply = Message::default();
    assert_eq!(
        classify_cancel(Ok(Some(reply.clone())), UnknownCause::Timeout, true),
        Ok(reply.clone())
    );
    assert_eq!(
        classify_cancel(Ok(None), UnknownCause::Timeout, true),
        Err(Error::MalformedReply)
    );
    assert_eq!(
        classify_cancel(Err(SessionError::Cancelled), UnknownCause::Timeout, true),
        Err(Error::Timeout)
    );
    assert_eq!(
        classify_cancel(
            Err(SessionError::OutcomeUnknown),
            UnknownCause::Cancelled,
            true
        ),
        Err(Error::OutcomeUnknown(UnknownCause::Cancelled))
    );
    assert_eq!(
        classify_cancel(
            Err(SessionError::OutcomeUnknown),
            UnknownCause::Cancelled,
            false
        ),
        Err(Error::NotConnected)
    );
    assert_eq!(
        classify_refusal(SessionError::Cancelled, UnknownCause::Cancelled),
        Error::Cancelled
    );
    assert_eq!(
        classify_refusal(SessionError::Closed, UnknownCause::Cancelled),
        Error::Closed
    );
    assert_eq!(classify_result(Ok(None), false), Err(Error::MalformedReply));
    assert_eq!(check_options(true, true), Err(Error::Cancelled));
    assert_eq!(check_options(false, true), Err(Error::Timeout));
    assert_eq!(check_options(false, false), Ok(()));
}

#[test]
fn reads_and_changes_keep_their_limits() {
    assert_eq!(check_read(b"object", 0, 850, 1000), Ok(()));
    assert_eq!(
        check_read(b"object", 0, 851, 1000),
        Err(Error::LimitExceeded)
    );
    assert_eq!(
        check_read(b"object", u64::MAX, 1, 1000),
        Err(Error::LimitExceeded)
    );
    assert_eq!(check_read(b"object", 0, 0, 149), Err(Error::LimitExceeded));

    let change = [
        Operation::AssertVersion(1),
        Operation::Append(vec![0; 10]),
        Operation::SetXattr {
            name: b"name".to_vec(),
            value: b"value".to_vec(),
        },
    ];
    assert_eq!(check_mutation(NO_SNAP, &change, 3, 19), Ok(19));
    assert_eq!(
        check_mutation(NO_SNAP, &change, 3, 18),
        Err(Error::LimitExceeded)
    );
    assert_eq!(
        check_mutation(NO_SNAP, &change, 2, 19),
        Err(Error::LimitExceeded)
    );
    assert_eq!(check_mutation(7, &change, 3, 19), Err(Error::LimitExceeded));
    assert_eq!(
        check_mutation(NO_SNAP, &change[..1], 3, 19),
        Err(Error::LimitExceeded)
    );
    assert_eq!(
        check_mutation(NO_SNAP, &[], 3, 19),
        Err(Error::LimitExceeded)
    );
    let write = Mutation::Write {
        offset: 3,
        data: b"abc",
    };
    assert_eq!(write.retained_bytes(), 3);
    assert_eq!(
        write.into_owned(),
        Operation::Write {
            offset: 3,
            data: b"abc".to_vec()
        }
    );
    assert_eq!(Mutation::Remove.retained_bytes(), 0);
}

#[test]
fn the_first_routable_address_is_used() {
    let address = |port| {
        EntityAddr::ipv4_v2(Endpoint4 {
            a: 192,
            b: 0,
            c: 2,
            d: 1,
            port,
        })
    };
    let mut other = address(7);
    other.family = 10;
    let addresses = EntityAddrVec(vec![other, address(0), address(6800), address(6801)]);
    let (index, endpoint) = route_address(&addresses).expect("address");
    assert_eq!((index, endpoint.port), (2, 6800));
    assert_eq!(
        route_address(&EntityAddrVec(vec![address(0)])),
        Err(Error::NoPrimary)
    );
    let mut next = u64::MAX - 1;
    assert_eq!(take_transaction_id(&mut next), Ok(u64::MAX - 1));
    assert_eq!(take_transaction_id(&mut next), Err(Error::LimitExceeded));
}

fn result(data: Vec<u8>) -> CompoundResult {
    CompoundResult {
        operations: vec![OperationResult {
            operation: 0,
            code: 0,
            data,
        }],
        version: 1,
    }
}

#[test]
fn listings_are_asked_for_and_read() {
    assert!(matches!(
        list_inconsistent_objects(11),
        Err(Error::LimitExceeded)
    ));
    let mut pager = list_inconsistent_objects(4096).expect("listing");
    assert_eq!(pager.maximum, 341);
    assert!(matches!(
        pager.request(4096),
        Ok(Operation::ScrubList(_))
    ));
    assert_eq!(pager.request(8), Err(Error::LimitExceeded));
    let mut encoder = Encoder::new(64);
    let mut page = encoder.nested();
    page.u32(5);
    page.u32(0);
    encoder.versioned(1, 1, page);
    let data = encoder.finish().expect("page");
    assert_eq!(pager.answer(&result(data), 4096), Ok(true));
    assert_eq!(
        pager.answer(&result(vec![0]), 4096),
        Err(Error::MalformedReply)
    );
    assert_eq!(pager.interval, 5);

    let cursor = HObject {
        key: Vec::new(),
        object: Vec::new(),
        snapshot: 0,
        hash: 6,
        max: false,
        namespace: Vec::new(),
        pool: 3,
    };
    assert!(matches!(
        list_objects(&cursor, 10, 2, 4096),
        Ok(Operation::PGNList { cursor_hash: 6, count: 10, start_epoch: 2, .. })
    ));
    assert_eq!(
        list_objects(&cursor, 0, 2, 4096),
        Err(Error::MalformedReply)
    );
    assert_eq!(
        listed_objects(
            &CompoundResult {
                operations: Vec::new(),
                version: 0
            },
            4096
        ),
        Err(Error::MalformedReply)
    );
    assert_eq!(
        listed_objects(&result(Vec::new()), 4096),
        Err(Error::MalformedReply)
    );
}
