use loom::sync::{Arc as LoomArc, Mutex as LoomMutex};
use loom::thread;
use rados::maps::PG;
use rados::osd::client::{
    allows_unknown_retry, contains_durable_mutation, contains_outcome_sensitive,
    validate_durable_reply, validate_operations, validate_target, Error, Target, UnknownCause,
};
use rados::osd::inconsistent::InconsistentObject;
use rados::osd::messages::{Operation, Redirect, Reply, FLAG_ACK};
use rados::osd::mutations::MutationState;
use rados::osd::pager::{InconsistentPager, SCRUB_PAGE_SIZE};
use std::collections::HashMap;

#[test]
fn read_target_keeps_read_snapshot_but_drops_write_context() {
    let target = Target {
        pool_id: 1,
        object: b"object".to_vec(),
        locator: Vec::new(),
        namespace: Vec::new(),
        snapshot: 7,
        snapshot_sequence: 9,
        write_snapshots: vec![9, 7],
    };

    let target = target.for_reading();

    assert_eq!(target.snapshot, 7);
    assert_eq!(target.snapshot_sequence, 0);
    assert!(target.write_snapshots.is_empty());
}

#[test]
fn recovery_replies_do_not_require_operation_results() {
    let pg = PG {
        pool: 1,
        seed: 7,
        preferred: -1,
    };
    let operation = Operation::Read {
        offset: 0,
        length: 16,
    };
    let mut reply = Reply {
        object: b"blocked".to_vec(),
        pg,
        flags: 0,
        result: -11,
        map_epoch: 1,
        retry: 0,
        version: 0,
        redirect: None,
        operations: Vec::new(),
    };
    assert!(validate_target(&reply, b"blocked", pg, 0).is_ok());
    assert_eq!(
        validate_operations(&reply, std::slice::from_ref(&operation)),
        Err(Error::MalformedReply)
    );

    reply.result = 0;
    reply.redirect = Some(Redirect {
        pool: 2,
        locator: Vec::new(),
        namespace: Vec::new(),
        object: Vec::new(),
    });
    assert!(validate_target(&reply, b"blocked", pg, 0).is_ok());
    assert_eq!(
        validate_operations(&reply, std::slice::from_ref(&operation)),
        Err(Error::MalformedReply)
    );
}

#[test]
fn comparisons_alone_are_not_a_mutation_compound() {
    assert!(!contains_outcome_sensitive(&[
        Operation::AssertVersion(7),
        Operation::CompareExtent {
            offset: 0,
            data: b"value".to_vec()
        },
        Operation::OmapCompare(vec![1, 2, 3]),
    ]));
    assert!(contains_outcome_sensitive(&[
        Operation::AssertVersion(7),
        Operation::WriteFull(Vec::new()),
    ]));
}

#[test]
fn notify_operations_are_outcome_sensitive_without_wire_mutation_flags() {
    let notify = Operation::Notify {
        cookie: 1,
        data: Vec::new(),
    };
    let acknowledgment = Operation::NotifyAck {
        cookie: 1,
        data: Vec::new(),
    };
    assert!(!notify.is_mutation());
    assert!(!acknowledgment.is_mutation());
    assert!(contains_outcome_sensitive(std::slice::from_ref(&notify)));
    assert!(contains_outcome_sensitive(std::slice::from_ref(
        &acknowledgment
    )));
    assert!(!allows_unknown_retry(&notify));
    assert!(!allows_unknown_retry(&acknowledgment));
    assert!(!contains_durable_mutation(&[notify, acknowledgment]));
}

#[test]
fn unknown_class_mutations_are_never_retryable() {
    let call = Operation::Call {
        class_length: 4,
        method_length: 6,
        input_length: 0,
        data: b"classmethod".to_vec(),
        mutation: true,
    };
    assert!(!allows_unknown_retry(&call));
    assert!(!allows_unknown_retry(&Operation::WithFlags {
        operation: Box::new(call),
        flags: 0,
    }));
    assert!(allows_unknown_retry(&Operation::WriteFull(Vec::new())));
}

fn scrub_item(name: &[u8]) -> InconsistentObject {
    InconsistentObject {
        object: name.to_vec(),
        namespace: b"ns".to_vec(),
        locator: b"loc".to_vec(),
        snapshot: 1,
        shards: vec![1],
        errors: vec!["x".to_owned()],
    }
}

#[test]
fn inconsistent_pager_finishes_short_page_and_enforces_bounds() {
    let mut pager = InconsistentPager::new(2);
    assert!(pager.push(7, vec![scrub_item(b"a")]).expect("short page"));
    assert_eq!(pager.result.len(), 1);

    let mut bounded = InconsistentPager::new(1);
    assert_eq!(
        bounded.push(1, vec![scrub_item(b"a"), scrub_item(b"b")]),
        Err(Error::LimitExceeded)
    );
}

#[test]
fn inconsistent_pager_rejects_interval_changes_and_nonadvancing_cursor() {
    let full_len = usize::try_from(SCRUB_PAGE_SIZE).expect("page size fits usize");
    let mut interval = InconsistentPager::new(3000);
    let full = vec![scrub_item(b"a"); full_len];
    assert!(!interval.push(9, full).expect("first page"));
    assert_eq!(
        interval.push(10, vec![scrub_item(b"b")]),
        Err(Error::WireErrno(-11))
    );

    let mut cursor = InconsistentPager::new(3000);
    let mut first = vec![scrub_item(b"a"); full_len];
    first[full_len - 1] = scrub_item(b"last");
    assert!(!cursor.push(3, first).expect("first page"));
    let mut repeat = vec![scrub_item(b"b"); full_len];
    repeat[0] = scrub_item(b"last");
    repeat[full_len - 1] = scrub_item(b"last");
    assert_eq!(cursor.push(3, repeat), Err(Error::MalformedReply));
}

#[test]
fn inconsistent_pager_appends_nonoverlapping_pages() {
    let full_len = usize::try_from(SCRUB_PAGE_SIZE).expect("page size fits usize");
    let mut pager = InconsistentPager::new(4000);
    let mut first = vec![scrub_item(b"a"); full_len];
    first[full_len - 1] = scrub_item(b"cursor");
    assert!(!pager.push(11, first).expect("first page"));

    let mut second = vec![scrub_item(b"b"); full_len];
    second[0] = scrub_item(b"next");
    second[full_len - 1] = scrub_item(b"second-cursor");
    assert!(!pager.push(11, second).expect("second page"));
    assert_eq!(pager.result.len(), full_len * 2);
    assert_eq!(pager.result[full_len].object, b"next");
    assert_eq!(pager.start.object, b"second-cursor");
}

#[test]
fn loom_completion_and_unknown_watermark_are_atomic() {
    loom::model(|| {

        let state = LoomArc::new(LoomMutex::new(MutationState {
            next_sequence: 2,
            pending: HashMap::from([(1, 3), (2, 5)]),
            retained_bytes: 8,
            ..MutationState::default()
        }));
        let first = LoomArc::clone(&state);
        let first_owner = thread::spawn(move || {
            let mut state = first.lock().expect("first lock");
            assert!(state.complete_mutation(
                1,
                Some(Error::OutcomeUnknown(UnknownCause::Transport))
            ));
        });
        let second = LoomArc::clone(&state);
        let second_owner = thread::spawn(move || {
            assert!(second
                .lock()
                .expect("second lock")
                .complete_mutation(2, None));
        });
        first_owner.join().expect("first completion");
        second_owner.join().expect("second completion");
        let state = state.lock().expect("flush lock");
        assert!(state.pending.is_empty());
        assert_eq!(state.retained_bytes, 0);
        assert_eq!(state.earliest_unknown, Some(1));
    });
}

#[test]
fn loom_shutdown_and_admission_are_serialized() {
    loom::model(|| {

        let state = LoomArc::new(LoomMutex::new(MutationState::default()));
        let admission_state = LoomArc::clone(&state);
        let admission = thread::spawn(move || {
            admission_state
                .lock()
                .expect("admission lock")
                .admit_mutation(3)
        });
        let shutdown_state = LoomArc::clone(&state);
        let shutdown = thread::spawn(move || {
            shutdown_state
                .lock()
                .expect("shutdown lock")
                .close_mutation_admission();
        });
        let admitted = admission.join().expect("admission transition");
        shutdown.join().expect("shutdown transition");
        let state = state.lock().expect("final lock");
        assert!(state.admission_closed);
        match admitted {
            Ok(Some(sequence)) => {
                assert_eq!(state.pending.get(&sequence), Some(&3));
                assert_eq!(state.retained_bytes, 3);
            }
            Err(Error::Closed) => {
                assert!(state.pending.is_empty());
                assert_eq!(state.retained_bytes, 0);
            }
            result => panic!("unexpected admission result: {result:?}"),
        }
    });
}

#[test]
fn acknowledgment_cannot_masquerade_as_durable_commit() {
    let reply = Reply {
        object: b"object".to_vec(),
        pg: PG {
            pool: 1,
            seed: 2,
            preferred: -1,
        },
        flags: i64::from(FLAG_ACK),
        result: 0,
        map_epoch: 1,
        retry: 0,
        version: 7,
        redirect: None,
        operations: Vec::new(),
    };
    assert_eq!(
        validate_durable_reply(&reply),
        Err(Error::OutcomeUnknown(UnknownCause::Transport))
    );
}
