use rados::maps::{Fsid, PG};
use rados::msgr::message::{Message, MessageHeader, MessageLengths};
use rados::osd::client::{CommandResult, Error, UnknownCause};
use rados::osd::command::MESSAGE_COMMAND_REPLY;
use rados::osd::command_plan::{
    check_command, resolve_command_route, CommandNext, CommandPlan, CommandRoute, CommandTarget,
    MapFacts,
};
use rados::wire::Encoder;

const ROUTE: CommandRoute = CommandRoute {
    epoch: 9,
    primary: 4,
};

fn plan() -> CommandPlan {
    CommandPlan::new(
        CommandTarget::Osd(4),
        Fsid([1; 16]),
        vec!["ping".to_owned()],
        b"input".to_vec(),
        17,
    )
}

fn begin(plan: &mut CommandPlan) {
    assert_eq!(
        plan.begin_attempt(false, false, false, Some(Ok(ROUTE))),
        Ok(())
    );
}

fn reply(transaction_id: u64, result: i32, status: &str, output: &[u8]) -> Message {
    let mut encoder = Encoder::new(256 + status.len());
    encoder.i32(result);
    encoder.string(status);
    let front = encoder.finish().expect("command reply front");
    Message {
        header: MessageHeader {
            transaction_id,
            message_type: MESSAGE_COMMAND_REPLY,
            version: 1,
            compat_version: 1,
            ..MessageHeader::default()
        },
        lengths: MessageLengths {
            front: u32::try_from(front.len()).expect("front length"),
            data: u32::try_from(output.len()).expect("data length"),
            ..MessageLengths::default()
        },
        front,
        data: output.to_vec(),
        ..Message::default()
    }
}

#[test]
fn a_command_is_sent_again_under_its_transaction_when_asked() {
    let mut plan = plan();
    begin(&mut plan);
    let message = plan.message(4096).expect("message");
    assert_eq!(message.header.transaction_id, 17);
    assert_eq!(message.data, b"input");
    let outcome = plan.submitted(Ok(reply(17, -11, "", b"")), 4096);
    assert!(!outcome.invalidate);
    assert!(matches!(outcome.next, CommandNext::Refresh { epoch: 9 }));
    assert!(matches!(plan.refreshed(Ok(())), CommandNext::Again));
    begin(&mut plan);
    assert_eq!(
        plan.message(4096).expect("message").header.transaction_id,
        17
    );
    let outcome = plan.submitted(Ok(reply(17, 0, "ok", b"out")), 4096);
    let CommandNext::Done(Ok((result, None))) = outcome.next else {
        panic!("command is done: {outcome:?}");
    };
    assert_eq!(
        result,
        CommandResult {
            result: 0,
            status: "ok".to_owned(),
            output: b"out".to_vec(),
        }
    );
}

#[test]
fn unknown_commands_end_without_replay() {
    let mut plan = plan();
    begin(&mut plan);
    let unknown = Error::OutcomeUnknown(UnknownCause::Transport);
    let outcome = plan.submitted(Err(unknown), 4096);
    assert!(!outcome.invalidate);
    assert!(matches!(outcome.next, CommandNext::Done(Err(error)) if error == unknown));
    for (error, invalidate) in [
        (Error::QueueSaturated, false),
        (Error::Timeout, true),
        (Error::Cancelled, true),
    ] {
        let outcome = plan.submitted(Err(error), 4096);
        assert_eq!(outcome.invalidate, invalidate);
        assert!(matches!(outcome.next, CommandNext::Done(Err(given)) if given == error));
    }
    let outcome = plan.submitted(Err(Error::StaleMap), 4096);
    assert!(outcome.invalidate);
    assert!(matches!(outcome.next, CommandNext::Refresh { epoch: 9 }));
    assert!(matches!(
        plan.refreshed(Err(Error::Timeout)),
        CommandNext::Done(Err(Error::Timeout))
    ));
}

#[test]
fn malformed_or_misplaced_replies_are_final() {
    let mut plan = plan();
    begin(&mut plan);
    for wrong in [reply(18, 0, "ok", b""), Message::default()] {
        let outcome = plan.submitted(Ok(wrong), 4096);
        assert!(outcome.invalidate);
        assert!(matches!(
            outcome.next,
            CommandNext::Done(Err(Error::MalformedReply))
        ));
    }
}

#[test]
fn refused_commands_keep_status_and_output() {
    let mut plan = plan();
    begin(&mut plan);
    let outcome = plan.submitted(Ok(reply(17, -13, "denied", b"why")), 4096);
    let CommandNext::Done(Ok((result, Some(error)))) = outcome.next else {
        panic!("command is refused: {outcome:?}");
    };
    assert_eq!(error, Error::WireErrno(-13));
    assert_eq!(result.status, "denied");
    assert_eq!(result.output, b"why");
}

#[test]
fn attempts_need_a_map_a_route_and_time() {
    let mut plan = plan();
    assert_eq!(
        plan.begin_attempt(false, false, false, None),
        Err(Error::NotConnected)
    );
    assert_eq!(
        plan.begin_attempt(false, false, false, Some(Err(Error::NoPrimary))),
        Err(Error::NoPrimary)
    );
    assert_eq!(
        plan.begin_attempt(true, false, false, Some(Ok(ROUTE))),
        Err(Error::Closed)
    );
    assert_eq!(
        plan.begin_attempt(false, false, true, Some(Ok(ROUTE))),
        Err(Error::Timeout)
    );
    for _ in 0..4 {
        begin(&mut plan);
        plan.refreshed(Ok(()));
    }
    assert_eq!(
        plan.begin_attempt(false, false, false, Some(Ok(ROUTE))),
        Err(Error::RecoveryExhausted)
    );
    assert_eq!(check_command(false, 0), Err(Error::LimitExceeded));
    assert_eq!(check_command(true, 1), Err(Error::Closed));
    assert_eq!(check_command(false, 1), Ok(()));
}

#[test]
fn commands_go_to_a_daemon_or_to_the_primary_of_a_group() {
    let facts = MapFacts {
        epoch: 9,
        pool_exists: true,
        primary: Some(4),
        has_addresses: true,
    };
    let group = CommandTarget::Group(PG {
        pool: 7,
        seed: 3,
        preferred: -1,
    });
    assert_eq!(
        resolve_command_route(CommandTarget::Osd(5), facts),
        Ok(CommandRoute {
            epoch: 9,
            primary: 5
        })
    );
    assert_eq!(resolve_command_route(group, facts), Ok(ROUTE));
    assert_eq!(
        resolve_command_route(
            group,
            MapFacts {
                pool_exists: false,
                ..facts
            }
        ),
        Err(Error::WireErrno(-2))
    );
    for wrong in [
        MapFacts {
            primary: None,
            ..facts
        },
        MapFacts {
            primary: Some(-1),
            ..facts
        },
        MapFacts {
            has_addresses: false,
            ..facts
        },
    ] {
        assert_eq!(resolve_command_route(group, wrong), Err(Error::NoPrimary));
    }
    assert_eq!(
        resolve_command_route(
            CommandTarget::Osd(5),
            MapFacts {
                has_addresses: false,
                ..facts
            }
        ),
        Err(Error::NoPrimary)
    );
}
