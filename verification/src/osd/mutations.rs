//! Changes that are under way: how many and how large they may be together, and what a caller who
//! waits for all of them is told.

use crate::osd::client::{Error, UnknownCause};
use std::collections::HashMap;
use vstd::prelude::*;

verus! {

broadcast use {vstd::std_specs::hash::group_hash_axioms, vstd::set::group_set_axioms};

/// How many changes may be under way.
pub const MAX_MUTATIONS: usize = 64;

/// How many bytes may go with the changes that are under way.
pub const MAX_MUTATION_BYTES: u64 = 0x8000_0000;

/// Whether a change with this many bytes can ever be taken.
pub fn check_retained(retained: u64) -> (r: Result<(), Error>)
    ensures
        r == if retained > MAX_MUTATION_BYTES {
            Err::<(), Error>(Error::LimitExceeded)
        } else {
            Ok(())
        },
{
    if retained > MAX_MUTATION_BYTES {
        return Err(Error::LimitExceeded);
    }
    Ok(())
}

/// The changes that are under way, by the order in which they were taken, with the bytes of each,
/// and the first change whose outcome is not known.
#[derive(Debug)]
pub struct MutationState {
    pub admission_closed: bool,
    pub next_sequence: u64,
    pub pending: HashMap<u64, u64>,
    pub retained_bytes: u64,
    pub earliest_unknown: Option<u64>,
}

#[verifier::ext_equal]
pub struct MutationView {
    pub admission_closed: bool,
    pub next_sequence: u64,
    pub pending: Map<u64, u64>,
    pub retained_bytes: u64,
    pub earliest_unknown: Option<u64>,
}

impl View for MutationState {
    type V = MutationView;

    open spec fn view(&self) -> MutationView {
        MutationView {
            admission_closed: self.admission_closed,
            next_sequence: self.next_sequence,
            pending: self.pending@,
            retained_bytes: self.retained_bytes,
            earliest_unknown: self.earliest_unknown,
        }
    }
}

/// The sum of the values of a map.
pub open spec fn total(m: Map<u64, u64>) -> nat
    decreases m.dom().len(),
    when m.dom().finite()
{
    if m.dom().len() == 0 {
        0
    } else {
        let key = m.dom().choose();
        m[key] as nat + total(m.remove(key))
    }
}

proof fn lemma_total_remove(m: Map<u64, u64>, key: u64)
    requires
        m.dom().finite(),
        m.contains_key(key),
    ensures
        total(m) == m[key] as nat + total(m.remove(key)),
    decreases m.dom().len(),
{
    let first = m.dom().choose();
    assert(m.dom().len() > 0);
    if first != key {
        lemma_total_remove(m.remove(first), key);
        lemma_total_remove(m.remove(key), first);
        assert(m.remove(first).remove(key) =~= m.remove(key).remove(first));
    }
}

proof fn lemma_total_insert(m: Map<u64, u64>, key: u64, value: u64)
    requires
        m.dom().finite(),
        !m.contains_key(key),
    ensures
        total(m.insert(key, value)) == total(m) + value,
{
    lemma_total_remove(m.insert(key, value), key);
    assert(m.insert(key, value).remove(key) =~= m);
}

/// What is true of every state: the retained bytes are those of the changes under way and within
/// the limit, and all changes have been numbered.
pub open spec fn accounted(s: MutationView) -> bool {
    &&& s.pending.dom().finite()
    &&& s.pending.dom().len() <= MAX_MUTATIONS
    &&& s.retained_bytes == total(s.pending)
    &&& s.retained_bytes <= MAX_MUTATION_BYTES
    &&& forall|sequence: u64| #[trigger]
        s.pending.contains_key(sequence) ==> 0 < sequence <= s.next_sequence
    &&& s.earliest_unknown matches Some(sequence) ==> 0 < sequence <= s.next_sequence
}

/// No changes.
pub open spec fn no_mutations() -> MutationView {
    MutationView {
        admission_closed: false,
        next_sequence: 0,
        pending: Map::empty(),
        retained_bytes: 0,
        earliest_unknown: None,
    }
}

/// Whether a change with this many bytes has to wait for others.
pub open spec fn crowded(s: MutationView, retained: u64) -> bool {
    s.pending.dom().len() >= MAX_MUTATIONS || s.retained_bytes + retained > MAX_MUTATION_BYTES
}

/// The state and the outcome after a change was offered: it is numbered and taken, or it has to
/// wait, or no more are taken.
pub open spec fn admission(s: MutationView, retained: u64) -> (
    MutationView,
    Result<Option<u64>, Error>,
) {
    if s.admission_closed {
        (s, Err(Error::Closed))
    } else if crowded(s, retained) {
        (s, Ok(None))
    } else if s.next_sequence == u64::MAX {
        (s, Err(Error::LimitExceeded))
    } else {
        let sequence = (s.next_sequence + 1) as u64;
        (
            MutationView {
                next_sequence: sequence,
                pending: s.pending.insert(sequence, retained),
                retained_bytes: (s.retained_bytes + retained) as u64,
                ..s
            },
            Ok(Some(sequence)),
        )
    }
}

/// The state after a change ended, if it was under way.
pub open spec fn completion(s: MutationView, sequence: u64, error: Option<Error>) -> MutationView {
    if s.pending.contains_key(sequence) {
        MutationView {
            pending: s.pending.remove(sequence),
            retained_bytes: (s.retained_bytes - s.pending[sequence]) as u64,
            earliest_unknown: if (error matches Some(Error::OutcomeUnknown(_))) && (
            s.earliest_unknown matches Some(unknown) ==> sequence < unknown) {
                Some(sequence)
            } else {
                s.earliest_unknown
            },
            ..s
        }
    } else {
        s
    }
}

/// What a wait for the changes up to a number comes to: it goes on, and it is known or not that all
/// outcomes so far are known, or it is over.
#[derive(Clone, Copy, Debug, PartialEq, Eq)]
pub enum Flush {
    Waiting { unknown: bool },
    Done(Result<(), Error>),
}

/// Whether a change up to a number is under way.
pub open spec fn waiting(s: MutationView, watermark: u64) -> bool {
    exists|sequence: u64| #[trigger] s.pending.contains_key(sequence) && sequence <= watermark
}

/// Whether the outcome of a change up to a number is not known.
pub open spec fn unknown(s: MutationView, watermark: u64) -> bool {
    s.earliest_unknown matches Some(sequence) && sequence <= watermark
}

pub open spec fn flushing(s: MutationView, watermark: u64) -> Flush {
    if waiting(s, watermark) {
        Flush::Waiting { unknown: unknown(s, watermark) }
    } else if unknown(s, watermark) {
        Flush::Done(Err(Error::OutcomeUnknown(UnknownCause::Transport)))
    } else {
        Flush::Done(Ok(()))
    }
}

impl Default for MutationState {
    fn default() -> (r: Self)
        ensures
            r@ == no_mutations(),
            accounted(r@),
    {
        let r = MutationState {
            admission_closed: false,
            next_sequence: 0,
            pending: HashMap::new(),
            retained_bytes: 0,
            earliest_unknown: None,
        };
        assert(r@ =~= no_mutations());
        r
    }
}

impl MutationState {
    /// Takes a change with this many bytes.
    pub fn admit_mutation(&mut self, retained: u64) -> (r: Result<Option<u64>, Error>)
        requires
            accounted(old(self)@),
        ensures
            accounted(final(self)@),
            (final(self)@, r) == admission(old(self)@, retained),
    {
        if self.admission_closed {
            return Err(Error::Closed);
        }
        if self.pending.len() >= MAX_MUTATIONS || retained > MAX_MUTATION_BYTES
            - self.retained_bytes {
            return Ok(None);
        }
        if self.next_sequence == u64::MAX {
            return Err(Error::LimitExceeded);
        }
        let sequence: u64 = self.next_sequence + 1;
        self.next_sequence = sequence;
        proof {
            lemma_total_insert(self.pending@, sequence, retained);
        }
        self.pending.insert(sequence, retained);
        self.retained_bytes = self.retained_bytes + retained;
        assert(self@ =~= admission(old(self)@, retained).0);
        Ok(Some(sequence))
    }

    /// Ends a change, and says whether it was under way.
    pub fn complete_mutation(&mut self, sequence: u64, error: Option<Error>) -> (r: bool)
        requires
            accounted(old(self)@),
        ensures
            accounted(final(self)@),
            r == old(self)@.pending.contains_key(sequence),
            final(self)@ == completion(old(self)@, sequence, error),
    {
        let retained: u64 = match self.pending.get(&sequence) {
            None => {
                return false;
            },
            Some(retained) => *retained,
        };
        proof {
            lemma_total_remove(self.pending@, sequence);
        }
        self.pending.remove(&sequence);
        self.retained_bytes = self.retained_bytes - retained;
        if let Some(Error::OutcomeUnknown(_)) = error {
            let first: bool = match self.earliest_unknown {
                Some(unknown) => sequence < unknown,
                None => true,
            };
            if first {
                self.earliest_unknown = Some(sequence);
            }
        }
        assert(self@ =~= completion(old(self)@, sequence, error));
        true
    }

    /// Takes no more changes.
    pub fn close_mutation_admission(&mut self)
        requires
            accounted(old(self)@),
        ensures
            accounted(final(self)@),
            final(self)@ == (MutationView { admission_closed: true, ..old(self)@ }),
    {
        self.admission_closed = true;
    }

    /// What a wait for the changes up to a number comes to.
    pub fn flush(&self, watermark: u64) -> (r: Flush)
        ensures
            r == flushing(self@, watermark),
    {
        let mut is_waiting: bool = false;
        for key in keys: self.pending.keys()
            invariant
                is_waiting <==> exists|i: int|
                    0 <= i < keys.index() && *(#[trigger] keys.seq()[i]) <= watermark,
                keys.seq().unref().to_set() == self.pending@.dom(),
                keys.index() == keys.seq().len() ==> is_waiting == waiting(self@, watermark),
        {
            let ghost seq = keys.seq();
            let ghost at = keys.index();
            if *key <= watermark {
                is_waiting = true;
            }
            proof {
                assert forall|sequence: u64| #[trigger]
                    self@.pending.contains_key(sequence) implies exists|i: int|
                    0 <= i < seq.len() && *(#[trigger] seq[i]) == sequence by {
                    assert(seq.unref().to_set().contains(sequence));
                    let i = choose|i: int|
                        0 <= i < seq.unref().len() && seq.unref()[i] == sequence;
                    assert(*seq[i] == sequence);
                }
                assert forall|i: int| 0 <= i < seq.len() implies self@.pending.contains_key(
                    *(#[trigger] seq[i]),
                ) by {
                    assert(seq.unref()[i] == *seq[i]);
                    assert(seq.unref().to_set().contains(*seq[i]));
                }
            }
        }
        let is_unknown: bool = match self.earliest_unknown {
            Some(sequence) => sequence <= watermark,
            None => false,
        };
        if is_waiting {
            Flush::Waiting { unknown: is_unknown }
        } else if is_unknown {
            Flush::Done(Err(Error::OutcomeUnknown(UnknownCause::Transport)))
        } else {
            Flush::Done(Ok(()))
        }
    }

    /// What is said to a wait that was given up. `unknown` is what was found when it began to wait.
    pub fn abandon_flush(&self, watermark: u64, found_unknown: bool, error: Error) -> (r: Error)
        ensures
            r == if found_unknown || unknown(self@, watermark) {
                Error::OutcomeUnknown(
                    match error {
                        Error::Cancelled => UnknownCause::Cancelled,
                        Error::Timeout => UnknownCause::Timeout,
                        _ => UnknownCause::Transport,
                    },
                )
            } else {
                error
            },
    {
        let is_unknown: bool = match self.earliest_unknown {
            Some(sequence) => sequence <= watermark,
            None => false,
        };
        if found_unknown || is_unknown {
            Error::OutcomeUnknown(
                match error {
                    Error::Cancelled => UnknownCause::Cancelled,
                    Error::Timeout => UnknownCause::Timeout,
                    _ => UnknownCause::Transport,
                },
            )
        } else {
            error
        }
    }
}

// ---------------------------------------------------------------------------
// What holds of changes
// ---------------------------------------------------------------------------

/// Changes that are taken after a wait began do not delay it and do not change what it is told.
pub proof fn law_later_changes_do_not_delay_a_flush(s: MutationView, retained: u64, watermark: u64)
    requires
        accounted(s),
        watermark <= s.next_sequence,
    ensures
        flushing(admission(s, retained).0, watermark) == flushing(s, watermark),
{
    let t = admission(s, retained).0;
    if t != s {
        let sequence = (s.next_sequence + 1) as u64;
        assert forall|k: u64| k <= watermark implies (#[trigger] t.pending.contains_key(k)
            <==> s.pending.contains_key(k)) by {}
        if waiting(s, watermark) {
            let k = choose|k: u64| #[trigger] s.pending.contains_key(k) && k <= watermark;
            assert(t.pending.contains_key(k));
        }
    }
}

/// An outcome that is not known is not forgotten: every wait for that change or a later one is told,
/// whatever else is taken and ends.
pub proof fn law_unknown_outcome_is_reported(
    s: MutationView,
    sequence: u64,
    cause: UnknownCause,
    watermark: u64,
    other: u64,
    error: Option<Error>,
    retained: u64,
)
    requires
        s.pending.contains_key(sequence),
        sequence <= watermark,
    ensures
        ({
            let t = completion(s, sequence, Some(Error::OutcomeUnknown(cause)));
            &&& unknown(t, watermark)
            &&& unknown(completion(t, other, error), watermark)
            &&& unknown(admission(t, retained).0, watermark)
        }),
{
}

/// A change whose outcome is known leaves nothing behind: what was free before it was taken is free
/// again after it ended.
pub proof fn law_completion_undoes_admission(s: MutationView, retained: u64, error: Option<Error>)
    requires
        accounted(s),
        admission(s, retained).1 matches Ok(Some(_)),
        !(error matches Some(Error::OutcomeUnknown(_))),
    ensures
        ({
            let (t, outcome) = admission(s, retained);
            completion(t, outcome->Ok_0->Some_0, error) == (MutationView {
                next_sequence: t.next_sequence,
                ..s
            })
        }),
{
    let (t, outcome) = admission(s, retained);
    let sequence = outcome->Ok_0->Some_0;
    assert(!s.pending.contains_key(sequence));
    assert(t.pending.remove(sequence) =~= s.pending);
}

/// A change ends once: ending it again changes nothing.
pub proof fn law_change_ends_once(
    s: MutationView,
    sequence: u64,
    first: Option<Error>,
    second: Option<Error>,
)
    ensures
        completion(completion(s, sequence, first), sequence, second) == completion(
            s,
            sequence,
            first,
        ),
{
}

/// Numbers ascend: a change that is taken has a number above all before it.
pub proof fn law_numbers_ascend(s: MutationView, retained: u64)
    requires
        accounted(s),
    ensures
        admission(s, retained).1 matches Ok(Some(sequence)) ==> sequence > s.next_sequence
            && !s.pending.contains_key(sequence) && admission(s, retained).0.next_sequence
            == sequence,
{
}

/// Once admission is closed, nothing more is taken, and what is under way can still end.
pub proof fn law_closed_admission_stays_closed(
    s: MutationView,
    retained: u64,
    sequence: u64,
    error: Option<Error>,
)
    requires
        s.admission_closed,
    ensures
        admission(s, retained) == (s, Err::<Option<u64>, Error>(Error::Closed)),
        completion(s, sequence, error).admission_closed,
        !completion(s, sequence, error).pending.contains_key(sequence),
{
}

// ---------------------------------------------------------------------------
// Views
// ---------------------------------------------------------------------------

/// What stands for a value of this type has its fields.
pub proof fn law_mutation_state_has_its_fields(x: MutationState)
    ensures
        x@.admission_closed == x.admission_closed,
        x@.next_sequence == x.next_sequence,
        x@.pending == x.pending@,
        x@.retained_bytes == x.retained_bytes,
        x@.earliest_unknown == x.earliest_unknown,
{
}

} // verus!
