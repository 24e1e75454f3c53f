use rados::osd::client::{Error, UnknownCause};
use rados::osd::mutations::{
    check_retained, Flush, MutationState, MAX_MUTATIONS, MAX_MUTATION_BYTES,
};

fn admitted(state: &mut MutationState, retained: u64) -> u64 {
    state
        .admit_mutation(retained)
        .expect("open")
        .expect("capacity")
}

#[test]
fn a_flush_waits_for_all_changes_before_it() {
    let mut state = MutationState::default();
    let first = admitted(&mut state, 3);
    let second = admitted(&mut state, 5);
    let watermark = state.next_sequence;
    assert_eq!(state.flush(watermark), Flush::Waiting { unknown: false });
    assert!(state.complete_mutation(first, None));
    assert_eq!(state.flush(watermark), Flush::Waiting { unknown: false });
    assert!(state.complete_mutation(second, Some(Error::WireErrno(-2))));
    assert_eq!(state.flush(watermark), Flush::Done(Ok(())));
}

#[test]
fn a_flush_ignores_later_changes() {
    let mut state = MutationState::default();
    let first = admitted(&mut state, 1);
    let watermark = state.next_sequence;
    let later = admitted(&mut state, 1);
    assert!(state.complete_mutation(first, None));
    assert_eq!(state.flush(watermark), Flush::Done(Ok(())));
    assert!(state.complete_mutation(
        later,
        Some(Error::OutcomeUnknown(UnknownCause::Timeout))
    ));
    assert_eq!(state.flush(watermark), Flush::Done(Ok(())));
    assert_eq!(
        state.flush(later),
        Flush::Done(Err(Error::OutcomeUnknown(UnknownCause::Transport)))
    );
}

#[test]
fn capacity_is_released_by_completion() {
    let mut state = MutationState::default();
    for _ in 0..MAX_MUTATIONS {
        admitted(&mut state, 1);
    }
    assert_eq!(state.admit_mutation(1), Ok(None));
    assert!(state.complete_mutation(7, None));
    assert!(!state.complete_mutation(7, None));
    assert_eq!(state.retained_bytes, MAX_MUTATIONS as u64 - 1);
    assert_eq!(state.admit_mutation(1), Ok(Some(65)));

    let mut large = MutationState::default();
    let all = admitted(&mut large, MAX_MUTATION_BYTES);
    assert_eq!(large.admit_mutation(1), Ok(None));
    assert!(large.complete_mutation(all, None));
    assert_eq!(large.retained_bytes, 0);
    assert_eq!(large.admit_mutation(1), Ok(Some(2)));
}

#[test]
fn numbers_run_out_and_admission_closes() {
    let mut state = MutationState::default();
    state.next_sequence = u64::MAX;
    assert_eq!(state.admit_mutation(1), Err(Error::LimitExceeded));
    state.close_mutation_admission();
    assert_eq!(state.admit_mutation(1), Err(Error::Closed));
    assert!(state.pending.is_empty());
}

#[test]
fn an_abandoned_flush_says_what_is_unknown() {
    let mut state = MutationState::default();
    let first = admitted(&mut state, 1);
    assert_eq!(
        state.abandon_flush(first, false, Error::Timeout),
        Error::Timeout
    );
    assert_eq!(
        state.abandon_flush(first, true, Error::Cancelled),
        Error::OutcomeUnknown(UnknownCause::Cancelled)
    );
    state.complete_mutation(first, Some(Error::OutcomeUnknown(UnknownCause::Timeout)));
    assert_eq!(
        state.abandon_flush(first, false, Error::Closed),
        Error::OutcomeUnknown(UnknownCause::Transport)
    );
}

#[test]
fn scripts_keep_the_accounts() {
    for seed in 0..64_u64 {
        let mut state = MutationState::default();
        let mut noise = seed.wrapping_mul(0x9e37_79b9_7f4a_7c15) | 1;
        for index in 0..MAX_MUTATIONS * 4 {
            noise ^= noise << 13;
            noise ^= noise >> 7;
            noise ^= noise << 17;
            let command = noise as u8;
            match command % 4 {
                0 => {
                    let _ = state.admit_mutation(u64::from(command));
                }
                1 | 2 if !state.pending.is_empty() => {
                    let offset = index % state.pending.len();
                    let sequence = *state.pending.keys().nth(offset).expect("bounded index");
                    let error = if command % 4 == 2 {
                        Some(Error::OutcomeUnknown(UnknownCause::Transport))
                    } else {
                        None
                    };
                    assert!(state.complete_mutation(sequence, error));
                }
                3 if command > 250 => state.close_mutation_admission(),
                _ => {}
            }
            assert_eq!(
                state.retained_bytes,
                state.pending.values().copied().sum::<u64>()
            );
            assert!(match state.earliest_unknown {
                Some(unknown) => unknown <= state.next_sequence,
                None => true,
            });
        }
    }
}

#[test]
fn a_change_fits_into_an_empty_account_or_into_none() {
    assert_eq!(check_retained(0), Ok(()));
    assert_eq!(check_retained(MAX_MUTATION_BYTES), Ok(()));
    assert_eq!(
        check_retained(MAX_MUTATION_BYTES + 1),
        Err(Error::LimitExceeded)
    );
}
