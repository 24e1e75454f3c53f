use rados::maps::PG;
use rados::msgr::message::{Message, MessageHeader, MessageLengths};
use rados::osd::client::{codes_of, described_codes, CompoundResult, Error, Target, UnknownCause};
use rados::osd::messages::{
    encode_pg, Limits, Operation, OperationResult, FLAG_IGNORE_CACHE, FLAG_IGNORE_OVERLAY,
    FLAG_ON_DISK, FLAG_PG_OP, FLAG_REDIRECTED, FLAG_RETRY, FLAG_RETURN_VECTOR, MESSAGE_OSD_OP,
    MESSAGE_OSD_OP_REPLY, NO_SNAP, OP_READ, OP_WRITE_FULL,
};
use rados::osd::routing::{
    best_effort, check_request, group_pool, Lookup, Next, Placement, Plan, PrimaryWait, RouteFacts,
    RouteFault, WaitStep,
};
use rados::wire::Encoder;

const LIMITS: Limits = Limits {
    max_bytes: 4096,
    max_operations: 4,
};

const GROUP: PG = PG {
    pool: 7,
    seed: 3,
    preferred: -1,
};

fn placement(epoch: u32, acting_primary: i32) -> Placement {
    Placement {
        epoch,
        pg: GROUP,
        primary_shard: -1,
        sharded: false,
        raw_hash: 0x1234,
        acting_primary,
    }
}

fn target() -> Target {
    Target {
        pool_id: 7,
        object: b"object".to_vec(),
        locator: b"key".to_vec(),
        namespace: b"space".to_vec(),
        snapshot: NO_SNAP,
        snapshot_sequence: 5,
        write_snapshots: vec![5, 4],
    }
}

fn read_plan() -> Plan {
    let operations = vec![Operation::Read {
        offset: 0,
        length: 16,
    }];
    let codes = codes_of(&operations);
    Plan::for_object(target(), operations, codes, 41, false).expect("plan")
}

fn write_plan() -> Plan {
    let operations = vec![Operation::WriteFull(b"data".to_vec())];
    let codes = codes_of(&operations);
    Plan::for_object(target(), operations, codes, 41, true).expect("plan")
}

fn call_plan() -> Plan {
    let operations = vec![Operation::Call {
        class_length: 1,
        method_length: 1,
        input_length: 0,
        data: b"cm".to_vec(),
        mutation: true,
    }];
    Plan::for_object(target(), operations, vec![0x1500], 41, true).expect("plan")
}

struct ReplyParts {
    object: &'static [u8],
    flags: u32,
    result: i32,
    operation: u16,
    code: i32,
    retry: i32,
    redirect: Option<(i64, &'static [u8])>,
    data: &'static [u8],
}

fn parts(operation: u16) -> ReplyParts {
    ReplyParts {
        object: b"object",
        flags: FLAG_ON_DISK,
        result: 0,
        operation,
        code: 0,
        retry: -1,
        redirect: None,
        data: b"",
    }
}

fn reply(parts: &ReplyParts) -> Message {
    let mut front = Encoder::new(4096);
    front.bytes(parts.object);
    encode_pg(&mut front, GROUP);
    front.i64(i64::from(parts.flags));
    front.i32(parts.result);
    front.raw(&[0; 12]);
    front.u32(9);
    front.u32(1);
    front.u16(parts.operation);
    front.raw(&[0; 32]);
    front.u32(u32::try_from(parts.data.len()).expect("data length"));
    front.i32(parts.retry);
    front.i32(parts.code);
    front.raw(&[0; 12]);
    front.u64(44);
    if let Some((pool, object)) = parts.redirect {
        front.bool(true);
        let mut redirect = front.nested();
        let mut locator = redirect.nested();
        locator.i64(pool);
        locator.i32(-1);
        locator.bytes(b"moved");
        locator.bytes(b"there");
        locator.i64(-1);
        redirect.versioned(6, 3, locator);
        redirect.bytes(object);
        redirect.u32(0);
        front.versioned(1, 1, redirect);
    } else {
        front.bool(false);
    }
    front.raw(&[0; 24]);
    let front = front.finish().expect("reply front");
    Message {
        header: MessageHeader {
            message_type: MESSAGE_OSD_OP_REPLY,
            version: 8,
            compat_version: 3,
            ..MessageHeader::default()
        },
        lengths: MessageLengths {
            front: u32::try_from(front.len()).expect("front length"),
            data: u32::try_from(parts.data.len()).expect("data length"),
            ..MessageLengths::default()
        },
        front,
        data: parts.data.to_vec(),
        ..Message::default()
    }
}

fn begin(plan: &mut Plan) {
    assert_eq!(
        plan.begin_attempt(false, false, false, Ok(placement(9, 2))),
        Ok(())
    );
}

#[test]
fn a_read_is_sent_answered_and_done() {
    let mut plan = read_plan();
    assert_eq!(plan.target.snapshot_sequence, 0);
    assert!(plan.target.write_snapshots.is_empty());
    begin(&mut plan);
    assert_eq!(plan.flags, 0);
    let message = plan.message(6, 5, 4, LIMITS).expect("message");
    assert_eq!(message.header.message_type, MESSAGE_OSD_OP);
    assert_eq!(message.header.transaction_id, 41);
    let place = plan.place();
    assert_eq!((place.hash, place.pool), (0x1234, 7));
    assert_eq!(place.object, b"object");
    let outcome = plan.submitted(
        Ok(reply(&ReplyParts {
            data: b"bytes",
            ..parts(OP_READ)
        })),
        false,
        LIMITS,
    );
    assert!(!outcome.invalidate);
    let Next::Done(Ok(result)) = outcome.next else {
        panic!("read is done: {outcome:?}");
    };
    assert_eq!(
        result,
        CompoundResult {
            operations: vec![OperationResult {
                operation: OP_READ,
                code: 0,
                data: b"bytes".to_vec(),
            }],
            version: 44,
        }
    );
    let first = result.first().expect("first result");
    assert_eq!((first.data.as_slice(), first.version), (&b"bytes"[..], 44));
    assert_eq!(
        CompoundResult {
            operations: Vec::new(),
            version: 1
        }
        .first(),
        Err(Error::MalformedReply)
    );
}

#[test]
fn attempts_say_that_they_are_another_one_and_run_out() {
    let mut plan = read_plan();
    for attempt in 0..4 {
        begin(&mut plan);
        assert_eq!(plan.attempt, attempt);
        assert_eq!(plan.flags & FLAG_RETRY != 0, attempt > 0);
        let outcome = plan.submitted(Err(Error::NotConnected), false, LIMITS);
        assert!(outcome.invalidate);
        assert!(matches!(outcome.next, Next::Refresh { epoch: 9 }));
        assert!(matches!(plan.refreshed(Ok(())), Next::Again));
    }
    assert_eq!(
        plan.begin_attempt(false, false, false, Ok(placement(9, 2))),
        Err(Error::RecoveryExhausted)
    );
}

#[test]
fn an_attempt_needs_an_open_client_time_and_a_primary() {
    let mut plan = read_plan();
    let route = Ok(placement(9, 2));
    assert_eq!(
        plan.begin_attempt(true, true, true, route),
        Err(Error::Closed)
    );
    assert_eq!(
        plan.begin_attempt(false, true, true, route),
        Err(Error::Cancelled)
    );
    assert_eq!(
        plan.begin_attempt(false, false, true, route),
        Err(Error::Timeout)
    );
    assert_eq!(
        plan.begin_attempt(false, false, false, Err(RouteFault::NoMap)),
        Err(Error::NotConnected)
    );
    assert_eq!(
        plan.begin_attempt(false, false, false, Err(RouteFault::NoPool)),
        Err(Error::WireErrno(-2))
    );
    assert_eq!(
        plan.begin_attempt(false, false, false, Err(RouteFault::NoPlace)),
        Err(Error::NoPrimary)
    );
    assert_eq!(
        plan.begin_attempt(false, false, false, Ok(placement(9, -1))),
        Err(Error::NoPrimary)
    );
    assert_eq!(check_request(true, 1, 4), Err(Error::Closed));
    assert_eq!(check_request(false, 0, 4), Err(Error::LimitExceeded));
    assert_eq!(check_request(false, 5, 4), Err(Error::LimitExceeded));
    assert_eq!(check_request(false, 4, 4), Ok(()));
}

#[test]
fn unknown_outcomes_wait_for_another_primary_and_are_kept() {
    let mut plan = write_plan();
    begin(&mut plan);
    let unknown = Error::OutcomeUnknown(UnknownCause::Timeout);
    let outcome = plan.submitted(Err(unknown), false, LIMITS);
    assert!(outcome.invalidate);
    assert!(matches!(outcome.next, Next::AwaitPrimary));
    assert!(matches!(plan.primary_changed(true), Next::Again));
    assert_eq!(
        plan.begin_attempt(true, false, false, Ok(placement(10, 3))),
        Err(unknown)
    );
    begin(&mut plan);
    let outcome = plan.submitted(Err(Error::QueueSaturated), false, LIMITS);
    assert!(!outcome.invalidate);
    assert!(matches!(outcome.next, Next::Done(Err(error)) if error == unknown));

    let mut given_up = write_plan();
    begin(&mut given_up);
    given_up.submitted(Err(unknown), false, LIMITS);
    assert!(matches!(
        given_up.primary_changed(false),
        Next::Done(Err(error)) if error == unknown
    ));
}

#[test]
fn calls_are_not_sent_again() {
    let mut plan = call_plan();
    begin(&mut plan);
    let unknown = Error::OutcomeUnknown(UnknownCause::Transport);
    let outcome = plan.submitted(Err(unknown), false, LIMITS);
    assert!(matches!(outcome.next, Next::Done(Err(error)) if error == unknown));
}

#[test]
fn a_change_is_done_when_it_is_on_disk() {
    let mut plan = write_plan();
    begin(&mut plan);
    let outcome = plan.submitted(Ok(reply(&parts(OP_WRITE_FULL))), false, LIMITS);
    assert!(matches!(outcome.next, Next::Done(Ok(_))));

    let mut early = write_plan();
    begin(&mut early);
    let outcome = early.submitted(
        Ok(reply(&ReplyParts {
            flags: 1,
            ..parts(OP_WRITE_FULL)
        })),
        false,
        LIMITS,
    );
    assert!(outcome.invalidate);
    assert!(matches!(
        outcome.next,
        Next::Done(Err(Error::OutcomeUnknown(UnknownCause::Transport)))
    ));
}

#[test]
fn unreliable_replies_leave_changes_unknown_and_reads_malformed() {
    let wrong_object = ReplyParts {
        object: b"another",
        ..parts(OP_READ)
    };
    let wrong_retry = ReplyParts {
        retry: 2,
        ..parts(OP_READ)
    };
    let too_long = ReplyParts {
        data: b"more than sixteen bytes",
        ..parts(OP_READ)
    };
    let wrong_operation = parts(OP_WRITE_FULL);
    for wrong in [wrong_object, wrong_retry, too_long, wrong_operation] {
        let mut plan = read_plan();
        begin(&mut plan);
        let outcome = plan.submitted(Ok(reply(&wrong)), false, LIMITS);
        assert!(outcome.invalidate);
        assert!(matches!(
            outcome.next,
            Next::Done(Err(Error::MalformedReply))
        ));
    }
    let mut change = write_plan();
    begin(&mut change);
    let outcome = change.submitted(Ok(Message::default()), false, LIMITS);
    assert!(matches!(
        outcome.next,
        Next::Done(Err(Error::OutcomeUnknown(UnknownCause::Transport)))
    ));
}

#[test]
fn failures_are_reported_and_transient_ones_wait_for_a_map() {
    for again in [
        ReplyParts {
            result: -11,
            ..parts(OP_READ)
        },
        ReplyParts {
            code: -11,
            ..parts(OP_READ)
        },
    ] {
        let mut plan = read_plan();
        begin(&mut plan);
        let outcome = plan.submitted(Ok(reply(&again)), false, LIMITS);
        assert!(!outcome.invalidate);
        assert!(matches!(outcome.next, Next::Refresh { epoch: 9 }));
        assert!(matches!(
            plan.refreshed(Err(Error::Cancelled)),
            Next::Done(Err(Error::Cancelled))
        ));
    }
    for failed in [
        ReplyParts {
            result: -2,
            ..parts(OP_READ)
        },
        ReplyParts {
            code: -2,
            ..parts(OP_READ)
        },
    ] {
        let mut plan = read_plan();
        begin(&mut plan);
        let outcome = plan.submitted(Ok(reply(&failed)), false, LIMITS);
        assert!(matches!(
            outcome.next,
            Next::Done(Err(Error::WireErrno(-2)))
        ));
    }
    let operations = vec![Operation::WithFlags {
        operation: Box::new(Operation::Read {
            offset: 0,
            length: 16,
        }),
        flags: 2,
    }];
    let mut lenient =
        Plan::for_object(target(), operations, vec![OP_READ], 41, false).expect("plan");
    begin(&mut lenient);
    let outcome = lenient.submitted(
        Ok(reply(&ReplyParts {
            code: -2,
            ..parts(OP_READ)
        })),
        false,
        LIMITS,
    );
    assert!(matches!(outcome.next, Next::Done(Ok(_))));
}

#[test]
fn redirects_move_the_target_and_changes_get_a_new_transaction() {
    let redirected = ReplyParts {
        redirect: Some((8, b"other")),
        ..parts(OP_READ)
    };
    let mut plan = read_plan();
    begin(&mut plan);
    let outcome = plan.submitted(Ok(reply(&redirected)), false, LIMITS);
    assert!(matches!(outcome.next, Next::Again));
    assert_eq!(plan.attempt, 1);
    assert_eq!(plan.target.pool_id, 8);
    assert_eq!(plan.target.object, b"other");
    assert_eq!(plan.target.locator, b"moved");
    assert_eq!(plan.target.namespace, b"there");
    assert_eq!(
        plan.flags,
        FLAG_REDIRECTED | FLAG_IGNORE_CACHE | FLAG_IGNORE_OVERLAY
    );

    let mut change = write_plan();
    begin(&mut change);
    let outcome = change.submitted(
        Ok(reply(&ReplyParts {
            redirect: Some((8, b"")),
            ..parts(OP_WRITE_FULL)
        })),
        false,
        LIMITS,
    );
    assert!(matches!(outcome.next, Next::Retransact));
    assert_eq!(change.target.object, b"object");
    assert!(matches!(
        change.retransact(Err(Error::LimitExceeded)),
        Next::Done(Err(Error::LimitExceeded))
    ));
    assert!(matches!(change.retransact(Ok(42)), Next::Again));
    assert_eq!((change.transaction_id, change.attempt), (42, 1));
}

#[test]
fn requests_for_groups_stay_where_they_are() {
    let operations = vec![
        Operation::Read {
            offset: 0,
            length: 16,
        },
        Operation::Stat,
    ];
    let codes = codes_of(&operations);
    let mut plan = Plan::for_group(GROUP, operations, codes, 41).expect("plan");
    assert_eq!(plan.flags, FLAG_PG_OP | FLAG_RETURN_VECTOR);
    begin(&mut plan);
    assert!(plan.place().object.is_empty());
    let outcome = plan.submitted(
        Ok(reply(&ReplyParts {
            object: b"",
            redirect: Some((8, b"other")),
            ..parts(OP_READ)
        })),
        false,
        LIMITS,
    );
    assert!(matches!(outcome.next, Next::Again));
    assert_eq!(plan.target.pool_id, 7);
    assert!(plan.target.object.is_empty());
    assert!(matches!(
        Plan::for_group(
            PG {
                pool: u64::MAX,
                ..GROUP
            },
            vec![Operation::Stat],
            codes_of(&[Operation::Stat]),
            1
        ),
        Err(Error::LimitExceeded)
    ));
}

#[test]
fn operations_of_one_request_go_one_way() {
    let list = |cursor_hash| Operation::PGNList {
        cursor: Vec::new(),
        cursor_hash,
        count: 1,
        start_epoch: 1,
    };
    assert!(matches!(
        Plan::for_object(target(), vec![list(1), list(2)], vec![0, 0], 1, false),
        Err(Error::LimitExceeded)
    ));
    let mut plan =
        Plan::for_object(target(), vec![list(6), list(6)], vec![0, 0], 1, false).expect("plan");
    assert_eq!(
        plan.flags,
        FLAG_PG_OP | FLAG_IGNORE_OVERLAY | FLAG_RETURN_VECTOR
    );
    begin(&mut plan);
    assert_eq!(plan.place().hash, 6);
}

#[test]
fn another_primary_is_waited_for_a_few_rounds() {
    let mut wait = PrimaryWait::new(2, 9);
    assert_eq!(
        wait.look(true, Some((8, Some(2)))),
        WaitStep::Refresh { epoch: 9 }
    );
    assert_eq!(
        wait.look(true, Some((12, None))),
        WaitStep::Refresh { epoch: 12 }
    );
    assert_eq!(
        wait.look(true, Some((13, Some(3)))),
        WaitStep::Changed(true)
    );
    assert_eq!(
        wait.look(true, Some((13, Some(-1)))),
        WaitStep::Changed(false)
    );
    assert_eq!(wait.look(false, Some((13, Some(3)))), WaitStep::Changed(false));
    assert_eq!(wait.look(true, None), WaitStep::Changed(false));
    wait.look(true, Some((13, Some(2))));
    wait.look(true, Some((13, Some(2))));
    assert_eq!(wait.look(true, Some((13, Some(3)))), WaitStep::Changed(false));
    assert_eq!(
        best_effort(Err(Error::Cancelled), false, false),
        Err(Error::Cancelled)
    );
    assert_eq!(best_effort(Err(Error::Timeout), false, false), Ok(()));
    assert_eq!(best_effort(Ok(()), false, true), Err(Error::Timeout));
}

#[test]
fn requests_are_looked_up_by_object_hash_or_group() {
    let plan = read_plan();
    assert_eq!(plan.lookup(), Lookup::Object);
    assert_eq!(plan.primary_lookup(), Lookup::Object);
    let list = Operation::PGNList {
        cursor: Vec::new(),
        cursor_hash: 6,
        count: 1,
        start_epoch: 1,
    };
    assert_eq!(described_codes(&[list.clone()]), Err(Error::Unsupported));
    assert_eq!(
        described_codes(&[Operation::Stat]),
        Ok(codes_of(&[Operation::Stat]))
    );
    let hashed = Plan::for_object(target(), vec![list], vec![0], 1, false).expect("plan");
    assert_eq!(hashed.lookup(), Lookup::RawHash(6));
    assert_eq!(hashed.primary_lookup(), Lookup::Object);
    let operations = vec![Operation::Stat];
    let codes = codes_of(&operations);
    let group = Plan::for_group(GROUP, operations, codes, 41).expect("plan");
    assert_eq!(group.lookup(), Lookup::RawHash(GROUP.seed));
    assert_eq!(group.primary_lookup(), Lookup::RawHash(GROUP.seed));
    let facts = RouteFacts {
        pool_exists: false,
        placement: None,
        has_addresses: true,
    };
    assert_eq!(plan.route(None), Err(RouteFault::NoMap));
    assert_eq!(plan.route(Some(facts)), Err(RouteFault::NoPlace));
    assert_eq!(group.route(Some(facts)), Err(RouteFault::NoPool));
    assert_eq!(group_pool(GROUP), Ok(7));
}
