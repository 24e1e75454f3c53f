//! What every step of a session keeps.

use super::control::ControlView;
use super::message::{MessageView, MESSAGE_HEADER_SIZE};
use super::session_model::{
    accept_acknowledgment, accepted, acknowledge, after_fault, answered, begin_handshake,
    begin_reconnect, beyond, cancel, client_ident, closing, complete_renewal, connected, controlled,
    counted, credential_seen, deliver, dispatch, emit, fail_all, fail_ids, fail_sent, fail_terminal,
    failure, failures, fault, find, first_unsent, free_id, held_bytes, identified, index_of,
    max_u64, next, next_id, no_requests, note, prepare_replay, queue_client_ident, queue_control,
    queue_reconnect, receive, reconnect_ok, reconnect_request, refresh_cookie, refused,
    remove_request, removed, renewal_due, replayed, require_ready, reset, reset_identity, retry,
    retry_global, saturated, sent, sent_count, sent_ids, server_ident, set_state, start,
    start_transport, stepped, stop, take_in, transition_allowed, trim_replay, trimmed, wait,
    without, written, Book, ConfigView, EffectView, Event, InputView, MachineView, PendingView,
    SessionError, State, Trace,
};
use vstd::prelude::*;

verus! {

// ---------------------------------------------------------------------------
// Books
// ---------------------------------------------------------------------------

/// No two requests have the same id.
pub open spec fn distinct(pending: Seq<PendingView>) -> bool {
    forall|i: int, j: int|
        0 <= i < j < pending.len() ==> (#[trigger] pending[i]).request_id != (
        #[trigger] pending[j]).request_id
}

/// Every request is found by its transaction.
pub open spec fn indexed(b: Book) -> bool {
    forall|i: int|
        0 <= i < b.pending.len() ==> {
            let p = #[trigger] b.pending[i];
            b.by_transaction.contains_key(p.message.header.transaction_id)
                && b.by_transaction[p.message.header.transaction_id] == p.request_id
        }
}

/// Every transaction is that of a request.
pub open spec fn traced(b: Book) -> bool {
    forall|transaction_id: u64| #[trigger]
        b.by_transaction.contains_key(transaction_id) ==> {
            let p = find(b.pending, b.by_transaction[transaction_id]);
            p is Some && p->Some_0.message.header.transaction_id == transaction_id
        }
}

/// Whether a request waits that was sent with a sequence number.
pub open spec fn numbered(pending: Seq<PendingView>, request_id: u64) -> bool {
    find(pending, request_id) is Some && find(pending, request_id)->Some_0.sequence != 0
}

/// Every request to send again waits and was sent before.
pub open spec fn replayable(b: Book) -> bool {
    forall|k: int| 0 <= k < b.replay.len() ==> numbered(b.pending, #[trigger] b.replay[k])
}

/// The bytes that a message holds while it waits: those of its header and of its segments.
pub open spec fn weight(m: MessageView) -> nat {
    MESSAGE_HEADER_SIZE as nat + m.front.len() + m.middle.len() + m.data.len()
}

/// No request is to be sent again twice, every request holds the bytes of its message, and what is
/// on the way may have been carried out.
#[verifier::opaque]
pub open spec fn tidy(b: Book) -> bool {
    &&& b.replay.no_duplicates()
    &&& forall|i: int|
        0 <= i < b.pending.len() ==> {
            let p = #[trigger] b.pending[i];
            p.bytes == weight(p.message) && (p.sent ==> p.may_have_executed)
        }
}

/// The book agrees with itself: the bytes that are retained are those of the requests.
pub open spec fn balanced(b: Book) -> bool {
    &&& distinct(b.pending)
    &&& b.retained_bytes == held_bytes(b.pending)
    &&& indexed(b)
    &&& traced(b)
    &&& replayable(b)
    &&& tidy(b)
}

/// The bounds of the configuration hold.
pub open spec fn within(m: MachineView) -> bool {
    &&& m.book.pending.len() <= m.config.max_queued_messages
    &&& sent_count(m.book.pending) <= m.config.max_in_flight_transactions
    &&& m.book.retained_bytes <= m.config.max_retained_bytes
    &&& m.controls.len() <= m.config.max_queued_messages
    &&& m.incoming_count <= m.config.max_queued_messages
    &&& m.reconnect_attempts <= m.config.max_reconnect_attempts
}

/// A request with this id waits.
pub open spec fn waits(b: Book, request_id: u64) -> bool {
    index_of(b.pending, request_id) is Some
}

/// The effect tells the submitter of a request how it ended.
pub open spec fn ends(effect: EffectView, request_id: u64) -> bool {
    match effect {
        EffectView::Completed { request_id: id, .. } => id == request_id,
        EffectView::Failed { request_id: id, .. } => id == request_id,
        _ => false,
    }
}

/// One of the effects from `from` on tells how a request ended.
pub open spec fn ended(out: Seq<EffectView>, from: int, request_id: u64) -> bool {
    exists|k: int| from <= k < out.len() && ends(#[trigger] out[k], request_id)
}

pub open spec fn same_limits(a: ConfigView, b: ConfigView) -> bool {
    &&& a.limits == b.limits
    &&& a.max_queued_messages == b.max_queued_messages
    &&& a.max_retained_bytes == b.max_retained_bytes
    &&& a.max_in_flight_transactions == b.max_in_flight_transactions
    &&& a.max_reconnect_attempts == b.max_reconnect_attempts
    &&& a.max_handshake_transitions == b.max_handshake_transitions
    &&& a.reconnect_policy == b.reconnect_policy
}

/// `out` goes on from `before`.
pub open spec fn extends(out: Seq<EffectView>, before: Seq<EffectView>) -> bool {
    before.len() <= out.len() && out.take(before.len() as int) == before
}

/// A request ended exactly once from `from` on.
pub open spec fn told(out: Seq<EffectView>, from: int, id: u64) -> bool {
    exists|k: int| from <= k < out.len() && ends(#[trigger] out[k], id) && only(out, from, id, k)
}

/// A request ended exactly once from `from` on. Where it got no answer, its submitter was told that
/// its outcome is unknown exactly if it may have been carried out.
pub open spec fn settled(out: Seq<EffectView>, from: int, id: u64, may_have_executed: bool) -> bool {
    exists|k: int|
        from <= k < out.len() && ends(#[trigger] out[k], id) && only(out, from, id, k) && honest(
            out[k],
            may_have_executed,
        )
}

/// No other effect than the one at `k` tells how a request ended.
pub open spec fn only(out: Seq<EffectView>, from: int, id: u64, k: int) -> bool {
    forall|j: int| from <= j < out.len() && ends(#[trigger] out[j], id) ==> j == k
}

pub open spec fn honest(effect: EffectView, may_have_executed: bool) -> bool {
    effect matches EffectView::Failed { error, .. } ==> (error == SessionError::OutcomeUnknown
        <==> may_have_executed)
}

/// What a step does to the request with this id, which is not just coming in: it goes on waiting
/// and nothing ends it, or it waits no longer and ended once.
pub open spec fn acts(a: Trace, b: Trace, id: u64) -> bool {
    &&& waits(b.m.book, id) ==> waits(a.m.book, id) && !ended(b.out, a.out.len() as int, id) && (
    find(a.m.book.pending, id)->Some_0.may_have_executed ==> find(
        b.m.book.pending,
        id,
    )->Some_0.may_have_executed)
    &&& waits(a.m.book, id) && !waits(b.m.book, id) ==> settled(
        b.out,
        a.out.len() as int,
        id,
        find(a.m.book.pending, id)->Some_0.may_have_executed,
    )
    &&& !waits(a.m.book, id) ==> !ended(b.out, a.out.len() as int, id)
}

/// A request that goes on waiting is the same but for being on the way.
pub open spec fn kept(a: Trace, b: Trace, id: u64) -> bool {
    waits(b.m.book, id) ==> find(b.m.book.pending, id)->Some_0 == (PendingView {
        sent: find(b.m.book.pending, id)->Some_0.sent,
        ..find(a.m.book.pending, id)->Some_0
    })
}

/// No effect from `from` on completes a request.
pub open spec fn uncompleted(out: Seq<EffectView>, from: int) -> bool {
    forall|k: int| from <= k < out.len() ==> !(#[trigger] out[k] is Completed)
}

/// An effect that writes to the transport.
pub open spec fn writes(effect: EffectView) -> bool {
    effect is SendControl || effect is SendMessage
}

/// An effect that sends a request.
pub open spec fn sends(effect: EffectView, id: u64) -> bool {
    effect matches EffectView::SendMessage { request_id, .. } && request_id == id
}

/// One of the effects from `from` on sends a request.
pub open spec fn sent_out(out: Seq<EffectView>, from: int, id: u64) -> bool {
    exists|k: int| from <= k < out.len() && sends(#[trigger] out[k], id)
}

/// One of the effects from `from` on closes a transport.
pub open spec fn closed(out: Seq<EffectView>, from: int) -> bool {
    exists|k: int| from <= k < out.len() && #[trigger] out[k] is CloseTransport
}

/// No effect from `from` on completes or admits a request, or writes.
pub open spec fn silent(out: Seq<EffectView>, from: int) -> bool {
    forall|k: int|
        from <= k < out.len() ==> !(#[trigger] out[k] is Completed) && !(out[k] is Admitted)
            && !writes(out[k])
}

/// No effect from `from` on writes.
pub open spec fn unwritten(out: Seq<EffectView>, from: int) -> bool {
    forall|k: int| from <= k < out.len() ==> !writes(#[trigger] out[k])
}

/// No write begins, and one that is under way is given up only with its transport.
pub open spec fn calm(a: Trace, b: Trace) -> bool {
    &&& b.m.write_busy ==> a.m.write_busy
    &&& a.m.write_busy && !b.m.write_busy ==> closed(b.out, a.out.len() as int)
}

/// What a step does to what is known of a request: it may have been carried out exactly if it was
/// sent before or in this step. A request that ends, or does not wait, is not sent.
pub open spec fn tracks(a: Trace, b: Trace, id: u64) -> bool {
    &&& waits(a.m.book, id) && waits(b.m.book, id) ==> find(
        b.m.book.pending,
        id,
    )->Some_0.may_have_executed == (find(a.m.book.pending, id)->Some_0.may_have_executed
        || sent_out(b.out, a.out.len() as int, id))
    &&& !waits(a.m.book, id) || !waits(b.m.book, id) ==> !sent_out(b.out, a.out.len() as int, id)
}

/// What every step keeps: effects are only added, the book agrees with itself, bounds stay, and
/// generations do not go back.
#[verifier::opaque]
pub open spec fn progress(a: Trace, b: Trace) -> bool {
    &&& extends(b.out, a.out)
    &&& same_limits(a.m.config, b.m.config)
    &&& balanced(b.m.book)
    &&& within(a.m) ==> within(b.m)
    &&& a.m.generation <= b.m.generation
}

/// What every part of a step keeps that neither sends nor completes a request.
#[verifier::opaque]
pub open spec fn follows(a: Trace, b: Trace) -> bool {
    &&& progress(a, b)
    &&& silent(b.out, a.out.len() as int)
    &&& forall|id: u64| #[trigger] acts(a, b, id)
    &&& forall|id: u64| #[trigger] kept(a, b, id)
    &&& calm(a, b)
}

pub proof fn lemma_follows_tracks(a: Trace, b: Trace)
    requires
        follows(a, b),
    ensures
        forall|id: u64| #[trigger] tracks(a, b, id),
        unwritten(b.out, a.out.len() as int),
        calm(a, b),
{
    reveal(follows);
    assert forall|id: u64| #[trigger] tracks(a, b, id) by {
        assert(acts(a, b, id) && kept(a, b, id));
        assert(!sent_out(b.out, a.out.len() as int, id)) by {
            assert forall|k: int| a.out.len() <= k < b.out.len() implies !sends(
                #[trigger] b.out[k],
                id,
            ) by {
                assert(!writes(b.out[k]));
            }
        }
    }
}

pub proof fn lemma_tidy_removed(b: Book, id: u64)
    requires
        tidy(b),
    ensures
        tidy(removed(b, id)),
{
    reveal(tidy);
    reveal(removed);
    lemma_index_of(b.pending, id);
    match index_of(b.pending, id) {
        None => {},
        Some(i) => {
            let c = removed(b, id);
            lemma_without_unique(b.replay, id);
            assert forall|x: int| 0 <= x < c.pending.len() implies {
                let p = #[trigger] c.pending[x];
                p.bytes == weight(p.message) && (p.sent ==> p.may_have_executed)
            } by {
                let x2 = if x < i { x } else { x + 1 };
                assert(c.pending[x] == b.pending[x2]);
            }
        },
    }
}

proof fn lemma_without_unique(ids: Seq<u64>, id: u64)
    requires
        ids.no_duplicates(),
    ensures
        without(ids, id).no_duplicates(),
    decreases ids.len(),
{
    if ids.len() > 0 {
        let shorter = ids.drop_last();
        let rest = without(shorter, id);
        let all = without(ids, id);
        lemma_without_unique(shorter, id);
        lemma_without(shorter, id);
        assert forall|x: int, y: int|
            0 <= x < all.len() && 0 <= y < all.len() && x != y implies all[x] != all[y] by {
            if x < rest.len() {
                assert(shorter.contains(rest[x]));
                let at = choose|at: int| 0 <= at < shorter.len() && shorter[at] == rest[x];
                assert(ids[at] == rest[x]);
            }
            if y < rest.len() {
                assert(shorter.contains(rest[y]));
                let at = choose|at: int| 0 <= at < shorter.len() && shorter[at] == rest[y];
                assert(ids[at] == rest[y]);
            }
        }
    }
}

proof fn lemma_trimmed_unique(replay: Seq<u64>, pending: Seq<PendingView>, sequence: u64)
    requires
        replay.no_duplicates(),
    ensures
        trimmed(replay, pending, sequence).no_duplicates(),
    decreases replay.len(),
{
    if replay.len() > 0 {
        let shorter = replay.drop_last();
        let rest = trimmed(shorter, pending, sequence);
        let all = trimmed(replay, pending, sequence);
        lemma_trimmed_unique(shorter, pending, sequence);
        lemma_trimmed(shorter, pending, sequence);
        assert forall|x: int, y: int|
            0 <= x < all.len() && 0 <= y < all.len() && x != y implies all[x] != all[y] by {
            if x < rest.len() {
                assert(shorter.contains(rest[x]));
                let at = choose|at: int| 0 <= at < shorter.len() && shorter[at] == rest[x];
                assert(replay[at] == rest[x]);
            }
            if y < rest.len() {
                assert(shorter.contains(rest[y]));
                let at = choose|at: int| 0 <= at < shorter.len() && shorter[at] == rest[y];
                assert(replay[at] == rest[y]);
            }
        }
    }
}

pub proof fn lemma_tidy_empty()
    ensures
        tidy(no_requests()),
{
    reveal(tidy);
}

pub proof fn lemma_progress_trans(a: Trace, b: Trace, c: Trace)
    requires
        progress(a, b),
        progress(b, c),
    ensures
        progress(a, c),
        forall|k: int| 0 <= k < b.out.len() ==> #[trigger] c.out[k] == b.out[k],
        a.out.len() <= b.out.len() <= c.out.len(),
{
    reveal(progress);
    assert forall|k: int| 0 <= k < b.out.len() implies #[trigger] c.out[k] == b.out[k] by {
        assert(c.out.take(b.out.len() as int)[k] == b.out[k]);
    }
    assert(c.out.take(a.out.len() as int) =~= b.out.take(a.out.len() as int));
}

pub proof fn lemma_acts_trans(a: Trace, b: Trace, c: Trace, id: u64)
    requires
        a.out.len() <= b.out.len() <= c.out.len(),
        forall|k: int| 0 <= k < b.out.len() ==> #[trigger] c.out[k] == b.out[k],
        acts(a, b, id),
        kept(a, b, id),
        acts(b, c, id),
    ensures
        acts(a, c, id),
{
    let from = a.out.len() as int;
    let mid = b.out.len() as int;
    if waits(b.m.book, id) {
        assert forall|k: int| from <= k < mid implies !ends(#[trigger] c.out[k], id) by {
            assert(c.out[k] == b.out[k]);
            assert(!ends(b.out[k], id));
        }
        if waits(c.m.book, id) {
            assert(!ended(c.out, from, id)) by {
                assert forall|k: int| from <= k < c.out.len() implies !ends(
                    #[trigger] c.out[k],
                    id,
                ) by {}
            }
        } else {
            let certain = find(b.m.book.pending, id)->Some_0.may_have_executed;
            let k = choose|k: int|
                mid <= k < c.out.len() && ends(#[trigger] c.out[k], id) && only(
                    c.out,
                    mid,
                    id,
                    k,
                ) && honest(c.out[k], certain);
            assert(ends(c.out[k], id));
            assert(only(c.out, from, id, k)) by {
                assert forall|j: int| from <= j < c.out.len() && ends(#[trigger] c.out[j], id)
                    implies j == k by {}
            }
        }
    } else {
        assert forall|k: int| mid <= k < c.out.len() implies !ends(#[trigger] c.out[k], id) by {}
        if waits(a.m.book, id) {
            let certain = find(a.m.book.pending, id)->Some_0.may_have_executed;
            let k = choose|k: int|
                from <= k < mid && ends(#[trigger] b.out[k], id) && only(b.out, from, id, k)
                    && honest(b.out[k], certain);
            assert(ends(c.out[k], id));
            assert(only(c.out, from, id, k)) by {
                assert forall|j: int| from <= j < c.out.len() && ends(#[trigger] c.out[j], id)
                    implies j == k by {
                    if j < mid {
                        assert(ends(b.out[j], id));
                    }
                }
            }
        } else {
            assert forall|k: int| from <= k < c.out.len() implies !ends(
                #[trigger] c.out[k],
                id,
            ) by {
                if k < mid {
                    assert(!ends(b.out[k], id));
                }
            }
        }
    }
}

pub proof fn lemma_follows_trans(a: Trace, b: Trace, c: Trace)
    requires
        follows(a, b),
        follows(b, c),
    ensures
        follows(a, c),
        balanced(c.m.book),
{
    reveal(follows);
    lemma_progress_trans(a, b, c);
    assert(balanced(c.m.book)) by {
        reveal(progress);
    }
    assert forall|id: u64| #[trigger] acts(a, c, id) by {
        assert(acts(a, b, id) && kept(a, b, id) && acts(b, c, id));
        lemma_acts_trans(a, b, c, id);
    }
    assert forall|id: u64| #[trigger] kept(a, c, id) by {
        assert(acts(b, c, id));
        assert(kept(a, b, id) && kept(b, c, id));
    }
    assert(silent(c.out, a.out.len() as int)) by {
        assert forall|k: int| a.out.len() <= k < c.out.len() implies !(
        #[trigger] c.out[k] is Completed) && !(c.out[k] is Admitted) && !writes(c.out[k]) by {
            if k < b.out.len() {
                assert(!(b.out[k] is Completed));
            }
        }
    }
    lemma_calm_trans(a, b, c);
}

pub proof fn lemma_calm_trans(a: Trace, b: Trace, c: Trace)
    requires
        a.out.len() <= b.out.len() <= c.out.len(),
        forall|k: int| 0 <= k < b.out.len() ==> #[trigger] c.out[k] == b.out[k],
        calm(a, b),
        calm(b, c),
    ensures
        calm(a, c),
{
    if a.m.write_busy && !b.m.write_busy {
        let k = choose|k: int| a.out.len() <= k < b.out.len() && #[trigger] b.out[k]
            is CloseTransport;
        assert(c.out[k] is CloseTransport);
    } else if b.m.write_busy && !c.m.write_busy {
        let k = choose|k: int| b.out.len() <= k < c.out.len() && #[trigger] c.out[k]
            is CloseTransport;
        assert(c.out[k] is CloseTransport);
    }
}

/// A change that leaves the book alone and emits nothing.
pub proof fn lemma_follows_same(a: Trace, b: Trace)
    requires
        balanced(a.m.book),
        b.m.book == a.m.book,
        b.m.write_busy == a.m.write_busy,
        b.out == a.out,
        same_limits(a.m.config, b.m.config),
        a.m.generation <= b.m.generation,
        within(a.m) ==> b.m.controls.len() <= b.m.config.max_queued_messages
            && b.m.incoming_count <= b.m.config.max_queued_messages && b.m.reconnect_attempts
            <= b.m.config.max_reconnect_attempts,
    ensures
        follows(a, b),
{
    reveal(follows);
    reveal(progress);
    assert(b.out.take(a.out.len() as int) =~= a.out);
}

/// Emitting an effect that does not end a request changes nothing else.
pub proof fn lemma_follows_emit(a: Trace, effect: EffectView)
    requires
        balanced(a.m.book),
        !(effect is Failed || effect is Completed || effect is Admitted),
        !writes(effect),
    ensures
        follows(a, emit(a, effect)),
{
    reveal(follows);
    reveal(progress);
    let b = emit(a, effect);
    assert(b.out.take(a.out.len() as int) =~= a.out);
    assert forall|id: u64| !ended(b.out, a.out.len() as int, id) by {
        assert forall|k: int| a.out.len() <= k < b.out.len() implies !ends(
            #[trigger] b.out[k],
            id,
        ) by {
            assert(b.out[k] == effect);
        }
    }
    assert forall|id: u64| #[trigger] acts(a, b, id) by {
        assert(!ended(b.out, a.out.len() as int, id));
    }
}

/// Giving up the transport, and with it the write that is under way.
pub proof fn lemma_follows_close(a: Trace, m: MachineView, generation: u64)
    requires
        balanced(a.m.book),
        m.book == a.m.book,
        !m.write_busy,
        same_limits(a.m.config, m.config),
        a.m.generation <= m.generation,
        within(a.m) ==> m.controls.len() <= m.config.max_queued_messages && m.incoming_count
            <= m.config.max_queued_messages && m.reconnect_attempts
            <= m.config.max_reconnect_attempts,
    ensures
        follows(a, emit((Trace { m, ..a }), EffectView::CloseTransport { generation })),
{
    let kept_busy = Trace { m: MachineView { write_busy: a.m.write_busy, ..m }, ..a };
    let closing = emit(kept_busy, EffectView::CloseTransport { generation });
    let b = emit((Trace { m, ..a }), EffectView::CloseTransport { generation });
    lemma_follows_same(a, kept_busy);
    lemma_follows_emit(kept_busy, EffectView::CloseTransport { generation });
    lemma_follows_trans(a, kept_busy, closing);
    reveal(follows);
    reveal(progress);
    assert(b.out[a.out.len() as int] is CloseTransport);
    assert forall|id: u64| #[trigger] acts(a, b, id) by {
        assert(acts(a, closing, id));
    }
    assert forall|id: u64| #[trigger] kept(a, b, id) by {
        assert(kept(a, closing, id));
    }
}

pub proof fn lemma_index_of(pending: Seq<PendingView>, id: u64)
    ensures
        match index_of(pending, id) {
            Some(i) => 0 <= i < pending.len() && pending[i].request_id == id && forall|j: int|
                0 <= j < i ==> (#[trigger] pending[j]).request_id != id,
            None => forall|j: int|
                0 <= j < pending.len() ==> (#[trigger] pending[j]).request_id != id,
        },
    decreases pending.len(),
{
    if pending.len() > 0 {
        lemma_index_of(pending.drop_last(), id);
        let shorter = pending.drop_last();
        match index_of(shorter, id) {
            Some(i) => {
                assert(pending[i] == shorter[i]);
                assert forall|j: int| 0 <= j < i implies (#[trigger] pending[j]).request_id != id by {
                    assert(shorter[j] == pending[j]);
                }
            },
            None => {
                assert forall|j: int| 0 <= j < shorter.len() implies (
                #[trigger] pending[j]).request_id != id by {
                    assert(shorter[j] == pending[j]);
                }
            },
        }
    }
}

pub proof fn lemma_index_unique(pending: Seq<PendingView>, i: int)
    requires
        distinct(pending),
        0 <= i < pending.len(),
    ensures
        index_of(pending, pending[i].request_id) == Some(i),
{
    lemma_index_of(pending, pending[i].request_id);
    let j = index_of(pending, pending[i].request_id);
    if j is Some && j->Some_0 != i {
        let k = j->Some_0;
        if k < i {
            assert(pending[k].request_id != pending[i].request_id);
        } else {
            assert(pending[i].request_id != pending[k].request_id);
        }
    }
}

pub proof fn lemma_held_remove(pending: Seq<PendingView>, i: int)
    requires
        0 <= i < pending.len(),
    ensures
        held_bytes(pending.remove(i)) == held_bytes(pending) - pending[i].bytes,
        sent_count(pending.remove(i)) <= sent_count(pending),
        pending[i].bytes <= held_bytes(pending),
    decreases pending.len(),
{
    let shorter = pending.drop_last();
    if i == pending.len() - 1 {
        assert(pending.remove(i) =~= shorter);
    } else {
        lemma_held_remove(shorter, i);
        assert(pending.remove(i).drop_last() =~= shorter.remove(i));
        assert(pending.remove(i).last() == pending.last());
    }
}

pub proof fn lemma_without(ids: Seq<u64>, id: u64)
    ensures
        forall|k: int|
            0 <= k < without(ids, id).len() ==> (#[trigger] without(ids, id)[k]) != id
                && ids.contains(without(ids, id)[k]),
    decreases ids.len(),
{
    if ids.len() > 0 {
        lemma_without(ids.drop_last(), id);
        let rest = without(ids.drop_last(), id);
        assert forall|k: int| 0 <= k < without(ids, id).len() implies (
        #[trigger] without(ids, id)[k]) != id && ids.contains(without(ids, id)[k]) by {
            if k < rest.len() {
                assert(without(ids, id)[k] == rest[k]);
                let at = choose|at: int|
                    0 <= at < ids.drop_last().len() && ids.drop_last()[at] == rest[k];
                assert(ids[at] == rest[k]);
            } else {
                assert(ids[ids.len() - 1] == ids.last());
            }
        }
    }
}

/// Removing a request keeps the book in agreement and the other requests waiting.
pub proof fn lemma_removed(b: Book, id: u64)
    requires
        balanced(b),
    ensures
        balanced(removed(b, id)),
        removed(b, id).pending.len() <= b.pending.len(),
        sent_count(removed(b, id).pending) <= sent_count(b.pending),
        removed(b, id).retained_bytes <= b.retained_bytes,
        forall|other: u64| other != id && #[trigger] waits(b, other) ==> waits(
            removed(b, id),
            other,
        ) && find(removed(b, id).pending, other) == find(b.pending, other),
        forall|other: u64| #[trigger] waits(removed(b, id), other) ==> waits(b, other),
        !waits(removed(b, id), id),
        index_of(b.pending, id) matches Some(i) ==> b.pending[i].bytes <= b.retained_bytes,
{
    lemma_tidy_removed(b, id);
    reveal(removed);
    lemma_index_of(b.pending, id);
    match index_of(b.pending, id) {
        None => {},
        Some(i) => {
            let c = removed(b, id);
            let tid = b.pending[i].message.header.transaction_id;
            lemma_held_remove(b.pending, i);
            assert forall|x: int, y: int| 0 <= x < y < c.pending.len() implies (
            #[trigger] c.pending[x]).request_id != (#[trigger] c.pending[y]).request_id by {
                let x2 = if x < i { x } else { x + 1 };
                let y2 = if y < i { y } else { y + 1 };
                assert(c.pending[x] == b.pending[x2]);
                assert(c.pending[y] == b.pending[y2]);
            }
            assert forall|x: int| 0 <= x < c.pending.len() implies {
                let p = #[trigger] c.pending[x];
                c.by_transaction.contains_key(p.message.header.transaction_id)
                    && c.by_transaction[p.message.header.transaction_id] == p.request_id
            } by {
                let x2 = if x < i { x } else { x + 1 };
                assert(c.pending[x] == b.pending[x2]);
                assert(b.pending[x2].request_id != b.pending[i].request_id) by {
                    if x2 < i {
                    } else {
                        assert(b.pending[i].request_id != b.pending[x2].request_id);
                    }
                }
            }
            assert forall|other: u64| other != id && #[trigger] waits(b, other) implies waits(
                c,
                other,
            ) && find(c.pending, other) == find(b.pending, other) by {
                lemma_index_of(b.pending, other);
                let x = index_of(b.pending, other)->Some_0;
                let x2 = if x < i { x } else { x - 1 };
                assert(c.pending[x2] == b.pending[x]);
                lemma_index_unique(c.pending, x2);
            }
            assert forall|other: u64| #[trigger] waits(c, other) implies waits(b, other) by {
                lemma_index_of(c.pending, other);
                let x = index_of(c.pending, other)->Some_0;
                let x2 = if x < i { x } else { x + 1 };
                assert(c.pending[x] == b.pending[x2]);
                lemma_index_unique(b.pending, x2);
            }
            assert(!waits(c, id)) by {
                lemma_index_of(c.pending, id);
                if waits(c, id) {
                    let x = index_of(c.pending, id)->Some_0;
                    let x2 = if x < i { x } else { x + 1 };
                    assert(c.pending[x] == b.pending[x2]);
                    lemma_index_unique(b.pending, x2);
                }
            }
            assert forall|t: u64| #[trigger] c.by_transaction.contains_key(t) implies {
                let p = find(c.pending, c.by_transaction[t]);
                p is Some && p->Some_0.message.header.transaction_id == t
            } by {
                let other = b.by_transaction[t];
                assert(b.by_transaction.contains_key(t));
                assert(other != id);
                assert(waits(b, other));
            }
            lemma_without(b.replay, id);
            assert forall|k: int| 0 <= k < c.replay.len() implies numbered(
                c.pending,
                #[trigger] c.replay[k],
            ) by {
                let other = c.replay[k];
                let at = choose|at: int| 0 <= at < b.replay.len() && b.replay[at] == other;
                assert(numbered(b.pending, b.replay[at]));
                assert(waits(b, other));
            }
        },
    }
}

pub proof fn lemma_trimmed(replay: Seq<u64>, pending: Seq<PendingView>, sequence: u64)
    ensures
        forall|k: int|
            0 <= k < trimmed(replay, pending, sequence).len() ==> replay.contains(
                #[trigger] trimmed(replay, pending, sequence)[k],
            ) && beyond(pending, trimmed(replay, pending, sequence)[k], sequence),
    decreases replay.len(),
{
    if replay.len() > 0 {
        let shorter = replay.drop_last();
        lemma_trimmed(shorter, pending, sequence);
        let all = trimmed(replay, pending, sequence);
        let rest = trimmed(shorter, pending, sequence);
        assert forall|k: int| 0 <= k < all.len() implies replay.contains(#[trigger] all[k])
            && beyond(pending, all[k], sequence) by {
            if k < rest.len() {
                assert(all[k] == rest[k]);
                let at = choose|at: int| 0 <= at < shorter.len() && shorter[at] == rest[k];
                assert(replay[at] == rest[k]);
            } else {
                assert(replay[replay.len() - 1] == replay.last());
            }
        }
    }
}

pub proof fn lemma_follows_trim(a: Trace, sequence: u64)
    requires
        balanced(a.m.book),
    ensures
        follows(a, trim_replay(a, sequence)),
{
    reveal(follows);
    reveal(progress);
    let b = trim_replay(a, sequence);
    assert(tidy(b.m.book)) by {
        reveal(tidy);
        lemma_trimmed_unique(a.m.book.replay, a.m.book.pending, sequence);
    }
    lemma_trimmed(a.m.book.replay, a.m.book.pending, sequence);
    assert forall|k: int| 0 <= k < b.m.book.replay.len() implies numbered(
        b.m.book.pending,
        #[trigger] b.m.book.replay[k],
    ) by {
        let id = b.m.book.replay[k];
        let at = choose|at: int| 0 <= at < a.m.book.replay.len() && a.m.book.replay[at] == id;
        assert(numbered(a.m.book.pending, a.m.book.replay[at]));
    }
    assert(b.out.take(a.out.len() as int) =~= a.out);
}

pub proof fn lemma_replayed_counts(b: Book, n: int)
    requires
        0 <= n <= b.pending.len(),
    ensures
        held_bytes(replayed(b).pending.take(n)) == held_bytes(b.pending.take(n)),
        sent_count(replayed(b).pending.take(n)) <= sent_count(b.pending.take(n)),
    decreases n,
{
    reveal(replayed);
    if n > 0 {
        lemma_replayed_counts(b, n - 1);
        assert(replayed(b).pending.take(n).drop_last() =~= replayed(b).pending.take(n - 1));
        assert(b.pending.take(n).drop_last() =~= b.pending.take(n - 1));
    }
}

pub proof fn lemma_follows_replay(a: Trace)
    requires
        balanced(a.m.book),
    ensures
        follows(a, prepare_replay(a)),
{
    reveal(follows);
    reveal(progress);
    reveal(replayed);
    let b = a.m.book;
    let c = replayed(b);
    assert(tidy(c)) by {
        reveal(tidy);
        assert forall|i: int| 0 <= i < c.pending.len() implies {
            let p = #[trigger] c.pending[i];
            p.bytes == weight(p.message) && (p.sent ==> p.may_have_executed)
        } by {
            let q = b.pending[i];
            assert(q.bytes == weight(q.message));
        }
    }
    lemma_replayed_counts(b, b.pending.len() as int);
    assert(c.pending.take(b.pending.len() as int) =~= c.pending);
    assert(b.pending.take(b.pending.len() as int) =~= b.pending);
    assert(distinct(c.pending)) by {
        assert forall|i: int, j: int| 0 <= i < j < c.pending.len() implies (
        #[trigger] c.pending[i]).request_id != (#[trigger] c.pending[j]).request_id by {
            assert(b.pending[i].request_id != b.pending[j].request_id);
        }
    }
    assert forall|i: int| 0 <= i < c.pending.len() implies {
        let p = #[trigger] c.pending[i];
        c.by_transaction.contains_key(p.message.header.transaction_id)
            && c.by_transaction[p.message.header.transaction_id] == p.request_id
    } by {
        assert(c.pending[i].message == b.pending[i].message);
        assert(c.pending[i].request_id == b.pending[i].request_id);
    }
    assert forall|id: u64| #[trigger] waits(b, id) implies waits(c, id) && find(
        c.pending,
        id,
    )->Some_0 == (PendingView {
        sent: find(c.pending, id)->Some_0.sent,
        ..find(b.pending, id)->Some_0
    }) by {
        lemma_index_of(b.pending, id);
        let i = index_of(b.pending, id)->Some_0;
        assert(c.pending[i].request_id == id);
        lemma_index_unique(c.pending, i);
    }
    assert forall|id: u64| #[trigger] waits(c, id) implies waits(b, id) by {
        lemma_index_of(c.pending, id);
        let i = index_of(c.pending, id)->Some_0;
        assert(b.pending[i].request_id == id);
        lemma_index_unique(b.pending, i);
    }
    assert forall|t: u64| #[trigger] c.by_transaction.contains_key(t) implies {
        let p = find(c.pending, c.by_transaction[t]);
        p is Some && p->Some_0.message.header.transaction_id == t
    } by {
        assert(b.by_transaction.contains_key(t));
        assert(waits(b, b.by_transaction[t]));
    }
    assert forall|k: int| 0 <= k < c.replay.len() implies numbered(
        c.pending,
        #[trigger] c.replay[k],
    ) by {
        assert(numbered(b.pending, b.replay[k]));
        assert(waits(b, b.replay[k]));
    }
    assert(prepare_replay(a).out.take(a.out.len() as int) =~= a.out);
}

pub proof fn lemma_follows_fail_all(a: Trace, error: SessionError)
    requires
        balanced(a.m.book),
        error != SessionError::OutcomeUnknown,
    ensures
        follows(a, fail_all(a, error)),
{
    reveal(follows);
    reveal(progress);
    reveal(fail_all);
    lemma_tidy_empty();
    let b = fail_all(a, error);
    let pending = a.m.book.pending;
    let from = a.out.len() as int;
    assert(b.out.take(from) =~= a.out);
    assert forall|k: int| from <= k < b.out.len() implies #[trigger] b.out[k] == failure(
        pending[k - from],
        error,
    ) by {
        assert(b.out[k] == failures(pending, error)[k - from]);
    }
    assert forall|id: u64| #[trigger] acts(a, b, id) by {
        lemma_index_of(pending, id);
        if waits(a.m.book, id) {
            let i = index_of(pending, id)->Some_0;
            assert(b.out[from + i] == failure(pending[i], error));
            assert(only(b.out, from, id, from + i)) by {
                assert forall|j: int| from <= j < b.out.len() && ends(#[trigger] b.out[j], id)
                    implies j == from + i by {
                    lemma_index_unique(pending, j - from);
                }
            }
            assert(ends(b.out[from + i], id));
            assert(settled(b.out, from, id, pending[i].may_have_executed));
        }
    }
}

/// Removing a request, with an effect that ends it.
pub proof fn lemma_remove(a: Trace, id: u64, effect: EffectView)
    requires
        balanced(a.m.book),
        waits(a.m.book, id),
        ends(effect, id),
        honest(effect, find(a.m.book.pending, id)->Some_0.may_have_executed),
    ensures
        progress(a, emit(remove_request(a, id), effect)),
        forall|other: u64| #[trigger] acts(a, emit(remove_request(a, id), effect), other),
        forall|other: u64| #[trigger] kept(a, emit(remove_request(a, id), effect), other),
        !waits(emit(remove_request(a, id), effect).m.book, id),
        forall|other: u64| #[trigger]
            waits(a.m.book, other) && other != id ==> waits(
                emit(remove_request(a, id), effect).m.book,
                other,
            ),
        forall|other: u64| #[trigger] tracks(a, emit(remove_request(a, id), effect), other),
        calm(a, emit(remove_request(a, id), effect)),
        unwritten(emit(remove_request(a, id), effect).out, a.out.len() as int),
{
    reveal(progress);
    let b = emit(remove_request(a, id), effect);
    let from = a.out.len() as int;
    lemma_removed(a.m.book, id);
    assert(b.out.take(from) =~= a.out);
    assert(ends(b.out[from], id));
    assert(only(b.out, from, id, from));
    assert forall|other: u64| #[trigger] acts(a, b, other) by {
        if other != id {
            assert(!ended(b.out, from, other)) by {
                assert forall|k: int| from <= k < b.out.len() implies !ends(
                    #[trigger] b.out[k],
                    other,
                ) by {
                    assert(b.out[k] == effect);
                }
            }
            assert(waits(b.m.book, other) ==> waits(a.m.book, other));
        }
    }
    assert forall|other: u64| #[trigger] kept(a, b, other) by {
        assert(waits(b.m.book, other) ==> waits(a.m.book, other));
    }
    assert forall|other: u64| #[trigger] tracks(a, b, other) by {
        assert(kept(a, b, other) && acts(a, b, other));
        assert(!sent_out(b.out, from, other)) by {
            assert forall|k: int| from <= k < b.out.len() implies !sends(
                #[trigger] b.out[k],
                other,
            ) by {
                assert(b.out[k] == effect);
            }
        }
    }
}

pub proof fn lemma_follows_remove(a: Trace, id: u64, error: SessionError)
    requires
        balanced(a.m.book),
        waits(a.m.book, id),
        find(a.m.book.pending, id)->Some_0.may_have_executed <==> error
            == SessionError::OutcomeUnknown,
    ensures
        follows(
            a,
            emit(remove_request(a, id), EffectView::Failed { request_id: id, error }),
        ),
{
    reveal(follows);
    lemma_remove(a, id, EffectView::Failed { request_id: id, error });
}

pub proof fn lemma_follows_fail_ids(a: Trace, ids: Seq<u64>)
    requires
        balanced(a.m.book),
        forall|i: int| 0 <= i < ids.len() ==> waits(a.m.book, #[trigger] ids[i]) && find(
            a.m.book.pending,
            ids[i],
        )->Some_0.may_have_executed,
        ids.no_duplicates(),
    ensures
        follows(a, fail_ids(a, ids)),
        balanced(fail_ids(a, ids).m.book),
        forall|id: u64|
            #![trigger waits(a.m.book, id)]
            waits(a.m.book, id) && !ids.contains(id) ==> waits(fail_ids(a, ids).m.book, id),
    decreases ids.len(),
{
    if ids.len() == 0 {
        lemma_follows_same(a, a);
    } else {
        let shorter = ids.drop_last();
        let before = fail_ids(a, shorter);
        assert forall|i: int| 0 <= i < shorter.len() implies waits(
            a.m.book,
            #[trigger] shorter[i],
        ) && find(a.m.book.pending, shorter[i])->Some_0.may_have_executed by {
            assert(shorter[i] == ids[i]);
        }
        lemma_follows_fail_ids(a, shorter);
        assert(kept(a, before, ids[ids.len() - 1])) by {
            reveal(follows);
        }
        assert(waits(a.m.book, ids[ids.len() - 1]));
        assert(!shorter.contains(ids.last())) by {
            if shorter.contains(ids.last()) {
                let i = choose|i: int| 0 <= i < shorter.len() && shorter[i] == ids.last();
                assert(ids[i] == ids[ids.len() - 1]);
            }
        }
        lemma_follows_remove(before, ids.last(), SessionError::OutcomeUnknown);
        lemma_follows_trans(a, before, fail_ids(a, ids));
        assert forall|id: u64|
            #![trigger waits(a.m.book, id)]
            waits(a.m.book, id) && !ids.contains(id) implies waits(
            fail_ids(a, ids).m.book,
            id,
        ) by {
            assert(id != ids.last()) by {
                assert(ids.contains(ids[ids.len() - 1]));
            }
            assert(!shorter.contains(id)) by {
                if shorter.contains(id) {
                    let i = choose|i: int| 0 <= i < shorter.len() && shorter[i] == id;
                    assert(ids[i] == id);
                }
            }
            lemma_removed(before.m.book, ids.last());
            assert(waits(before.m.book, id));
        }
    }
}

pub proof fn lemma_sent_ids(pending: Seq<PendingView>)
    requires
        distinct(pending),
    ensures
        sent_ids(pending).no_duplicates(),
        forall|k: int|
            0 <= k < sent_ids(pending).len() ==> index_of(
                pending,
                #[trigger] sent_ids(pending)[k],
            ) is Some && find(pending, sent_ids(pending)[k])->Some_0.sent,
    decreases pending.len(),
{
    if pending.len() > 0 {
        let shorter = pending.drop_last();
        assert(distinct(shorter)) by {
            assert forall|i: int, j: int| 0 <= i < j < shorter.len() implies (
            #[trigger] shorter[i]).request_id != (#[trigger] shorter[j]).request_id by {
                assert(pending[i].request_id != pending[j].request_id);
            }
        }
        lemma_sent_ids(shorter);
        let last = pending.last().request_id;
        lemma_index_unique(pending, pending.len() - 1);
        lemma_index_of(shorter, last);
        assert(index_of(shorter, last) is None) by {
            if index_of(shorter, last) is Some {
                let i = index_of(shorter, last)->Some_0;
                assert(pending[i].request_id != pending[pending.len() - 1].request_id);
            }
        }
        assert forall|k: int| 0 <= k < sent_ids(pending).len() implies index_of(
            pending,
            #[trigger] sent_ids(pending)[k],
        ) is Some && find(pending, sent_ids(pending)[k])->Some_0.sent by {
            if k < sent_ids(shorter).len() {
                assert(sent_ids(pending)[k] == sent_ids(shorter)[k]);
                lemma_index_of(shorter, sent_ids(shorter)[k]);
                let i = index_of(shorter, sent_ids(shorter)[k])->Some_0;
                assert(pending[i] == shorter[i]);
            }
        }
    }
}

pub proof fn lemma_follows_fail_sent(a: Trace)
    requires
        balanced(a.m.book),
    ensures
        follows(a, fail_sent(a)),
{
    reveal(fail_sent);
    let ids = sent_ids(a.m.book.pending);
    let mid = fail_ids(a, ids);
    let b = fail_sent(a);
    lemma_sent_ids(a.m.book.pending);
    assert forall|i: int| 0 <= i < ids.len() implies waits(a.m.book, #[trigger] ids[i]) && find(
        a.m.book.pending,
        ids[i],
    )->Some_0.may_have_executed by {
        reveal(tidy);
        lemma_index_of(a.m.book.pending, ids[i]);
    }
    lemma_follows_fail_ids(a, ids);
    assert(follows(mid, b)) by {
        reveal(follows);
        reveal(progress);
        reveal(tidy);
        assert(b.out.take(mid.out.len() as int) =~= mid.out);
    }
    lemma_follows_trans(a, mid, b);
}

pub broadcast proof fn lemma_balanced_after(a: Trace, b: Trace)
    requires
        #[trigger] follows(a, b),
    ensures
        balanced(b.m.book),
{
    reveal(follows);
    reveal(progress);
}

// ---------------------------------------------------------------------------
// Parts of a step
// ---------------------------------------------------------------------------

pub proof fn lemma_set_state(a: Trace, state: State)
    requires
        balanced(a.m.book),
    ensures
        follows(a, set_state(a, state)),
{
    reveal(set_state);
    let changed = Trace { m: MachineView { state, ..a.m }, ..a };
    lemma_follows_same(a, a);
    lemma_follows_same(a, changed);
    lemma_follows_emit(changed, EffectView::Event(Event::StateChanged(state)));
    lemma_follows_trans(a, changed, note(changed, Event::StateChanged(state)));
}

pub proof fn lemma_fail_terminal(a: Trace, error: SessionError)
    requires
        balanced(a.m.book),
        error != SessionError::OutcomeUnknown,
    ensures
        follows(a, fail_terminal(a, error)),
{
    reveal(fail_terminal);
    lemma_follows_same(a, a);
    if a.m.terminal_error is None {
        let t1 = Trace { m: MachineView { terminal_error: Some(error), ..a.m }, ..a };
        let t2 = emit(t1, EffectView::Terminal(error));
        let t3 = note(t2, Event::TransportFault(error));
        let t4 = Trace {
            m: MachineView {
                write_busy: false,
                controls: Seq::empty(),
                connect_pending: false,
                ..t3.m
            },
            ..t3
        };
        let t5 = emit(t4, EffectView::CloseTransport { generation: a.m.generation });
        let t6 = fail_all(t5, error);
        lemma_follows_same(a, t1);
        lemma_follows_emit(t1, EffectView::Terminal(error));
        lemma_follows_emit(t2, EffectView::Event(Event::TransportFault(error)));
        lemma_follows_trans(a, t1, t2);
        lemma_follows_trans(a, t2, t3);
        lemma_follows_close(t3, t4.m, a.m.generation);
        lemma_balanced_after(t3, t5);
        lemma_follows_fail_all(t5, error);
        lemma_balanced_after(t5, t6);
        lemma_set_state(t6, State::Disconnected);
        lemma_follows_trans(a, t3, t5);
        lemma_follows_trans(a, t5, t6);
        lemma_follows_trans(a, t6, set_state(t6, State::Disconnected));
    }
}

pub proof fn lemma_begin_reconnect(a: Trace)
    requires
        balanced(a.m.book),
    ensures
        follows(a, begin_reconnect(a)),
{
    reveal(begin_reconnect);
    if a.m.config.max_reconnect_attempts == 0 || a.m.reconnect_attempts
        >= a.m.config.max_reconnect_attempts {
        lemma_fail_terminal(a, SessionError::ReconnectExhausted);
    } else {
        let t1 = Trace {
            m: MachineView {
                reconnect_attempts: (a.m.reconnect_attempts + 1) as usize,
                connect_pending: true,
                ..a.m
            },
            ..a
        };
        lemma_follows_same(a, t1);
        if a.m.generation == u64::MAX {
            lemma_fail_terminal(t1, SessionError::TransitionLimit);
            lemma_follows_trans(a, t1, begin_reconnect(a));
        } else {
            let generation = (a.m.generation + 1) as u64;
            let t2 = Trace { m: MachineView { generation, ..t1.m }, ..t1 };
            lemma_follows_same(t1, t2);
            lemma_follows_emit(t2, EffectView::Connect { generation });
            lemma_follows_trans(a, t1, t2);
            lemma_follows_trans(a, t2, begin_reconnect(a));
        }
    }
}

pub proof fn lemma_reset_identity(a: Trace)
    requires
        balanced(a.m.book),
    ensures
        follows(a, reset_identity(a)),
{
    reveal(reset_identity);
    let t1 = Trace {
        m: MachineView {
            server_cookie: 0,
            server_flags: 0,
            connect_sequence: 0,
            last_inbound: 0,
            next_outbound: Some(1),
            next_transaction_id: Some(1),
            ..a.m
        },
        ..a
    };
    lemma_follows_same(a, t1);
    lemma_follows_fail_all(t1, SessionError::Disconnected);
    lemma_follows_trans(a, t1, reset_identity(a));
}

pub proof fn lemma_after_fault(a: Trace)
    requires
        balanced(a.m.book),
    ensures
        follows(a, after_fault(a)),
{
    reveal(after_fault);
    lemma_follows_fail_sent(a);
    lemma_balanced_after(a, fail_sent(a));
    lemma_reset_identity(fail_sent(a));
    lemma_follows_trans(a, fail_sent(a), reset_identity(fail_sent(a)));
    lemma_follows_fail_all(a, SessionError::Disconnected);
    lemma_follows_replay(a);
}

pub proof fn lemma_fault(a: Trace, error: SessionError)
    requires
        balanced(a.m.book),
    ensures
        follows(a, fault(a, error)),
{
    reveal(fault);
    lemma_follows_same(a, a);
    if !(a.m.terminal_error is Some || a.m.state == State::Stopped || (a.m.state
        == State::Disconnected && a.m.connect_pending)) {
        let t1 = note(a, Event::TransportFault(error));
        let t2 = emit(t1, EffectView::CloseTransport { generation: a.m.generation });
        let t3 = Trace {
            m: MachineView { write_busy: false, controls: Seq::empty(), ..t2.m },
            ..t2
        };
        let t4 = after_fault(t3);
        let t5 = set_state(t4, State::Disconnected);
        lemma_follows_emit(a, EffectView::Event(Event::TransportFault(error)));
        lemma_follows_close(t1, t3.m, a.m.generation);
        assert(t3 == emit((Trace { m: t3.m, ..t1 }), EffectView::CloseTransport {
            generation: a.m.generation,
        }));
        lemma_balanced_after(t1, t3);
        lemma_after_fault(t3);
        lemma_balanced_after(t3, t4);
        lemma_set_state(t4, State::Disconnected);
        lemma_balanced_after(t4, t5);
        lemma_begin_reconnect(t5);
        lemma_follows_trans(a, t1, t3);
        lemma_follows_trans(a, t3, t4);
        lemma_follows_trans(a, t4, t5);
        lemma_follows_trans(a, t5, fault(a, error));
    }
}

pub proof fn lemma_start_transport(a: Trace, state: State)
    requires
        balanced(a.m.book),
    ensures
        follows(a, start_transport(a, state).0),
{
    reveal(start_transport);
    lemma_fail_terminal(a, SessionError::TransitionLimit);
    if a.m.generation != u64::MAX {
        let t1 = Trace {
            m: MachineView { generation: (a.m.generation + 1) as u64, ..a.m },
            ..a
        };
        lemma_follows_same(a, t1);
        lemma_set_state(t1, state);
        lemma_follows_trans(a, t1, set_state(t1, state));
    }
}

pub proof fn lemma_queue_control(a: Trace, control: ControlView)
    requires
        balanced(a.m.book),
    ensures
        follows(a, queue_control(a, control)),
{
    reveal(queue_control);
    lemma_fault(a, SessionError::QueueSaturated);
    if a.m.controls.len() < a.m.config.max_queued_messages {
        lemma_follows_same(a, queue_control(a, control));
    }
}

pub proof fn lemma_queue_reconnect(a: Trace)
    requires
        balanced(a.m.book),
    ensures
        follows(a, queue_reconnect(a)),
{
    let t1 = Trace { m: MachineView { controls: Seq::empty(), ..a.m }, ..a };
    lemma_follows_same(a, t1);
    lemma_queue_control(t1, reconnect_request(a.m));
    lemma_follows_trans(a, t1, queue_reconnect(a));
}

pub proof fn lemma_refresh_cookie(a: Trace)
    requires
        balanced(a.m.book),
    ensures
        follows(a, refresh_cookie(a).0),
{
    reveal(refresh_cookie);
    lemma_fail_terminal(a, SessionError::Disconnected);
    if a.m.replacement_cookies.len() > 0 {
        let t1 = Trace {
            m: MachineView { replacement_cookies: a.m.replacement_cookies.skip(1), ..a.m },
            ..a
        };
        lemma_follows_same(a, t1);
        lemma_fail_terminal(t1, SessionError::Malformed);
        lemma_follows_trans(a, t1, fail_terminal(t1, SessionError::Malformed));
        let t2 = Trace {
            m: MachineView { client_cookie: a.m.replacement_cookies[0], ..t1.m },
            ..t1
        };
        lemma_follows_same(a, t2);
    }
}

pub proof fn lemma_require_ready(a: Trace)
    requires
        balanced(a.m.book),
    ensures
        follows(a, require_ready(a).0),
{
    reveal(require_ready);
    lemma_follows_same(a, a);
    lemma_fault(a, SessionError::Malformed);
}

pub proof fn lemma_transition_allowed(a: Trace, expected: State)
    requires
        balanced(a.m.book),
    ensures
        follows(a, transition_allowed(a, expected).0),
{
    reveal(transition_allowed);
    lemma_fault(a, SessionError::Malformed);
    lemma_follows_same(a, counted(a));
    lemma_fault(counted(a), SessionError::TransitionLimit);
    lemma_follows_trans(a, counted(a), fault(counted(a), SessionError::TransitionLimit));
}

pub proof fn lemma_accept(a: Trace, sequence: u64)
    requires
        balanced(a.m.book),
    ensures
        follows(a, accept_acknowledgment(a, sequence).0),
{
    reveal(accept_acknowledgment);
    lemma_follows_same(a, a);
    lemma_fault(a, SessionError::Malformed);
}

pub proof fn lemma_follows_note(a: Trace, m: MachineView, event: Event)
    requires
        balanced(a.m.book),
        follows(a, (Trace { m, ..a })),
        balanced(m.book),
    ensures
        follows(a, note((Trace { m, ..a }), event)),
{
    let t1 = Trace { m, ..a };
    lemma_follows_emit(t1, EffectView::Event(event));
    lemma_follows_trans(a, t1, note(t1, event));
}

pub proof fn lemma_complete_renewal(a: Trace)
    requires
        balanced(a.m.book),
    ensures
        follows(a, complete_renewal(a).0),
{
    reveal(complete_renewal);
    lemma_follows_same(a, a);
    lemma_fault(a, SessionError::Renewal);
    let b = complete_renewal(a).0;
    let t1 = Trace { m: b.m, ..a };
    if a.m.renewal == super::session_model::RenewalState::Reconnecting && a.m.credential_change
        == super::session_model::CredentialChange::Changed {
        lemma_follows_same(a, t1);
        lemma_follows_note(a, b.m, Event::CredentialRenewalCompleted);
        let t2 = note(t1, Event::CredentialRenewal);
        lemma_follows_note(a, b.m, Event::CredentialRenewal);
        lemma_balanced_after(a, t2);
        lemma_follows_emit(t2, EffectView::Event(Event::CredentialRenewalCompleted));
        lemma_follows_trans(a, t2, note(t2, Event::CredentialRenewalCompleted));
    }
}

pub proof fn lemma_reset(a: Trace, full: bool)
    requires
        balanced(a.m.book),
    ensures
        follows(a, reset(a, full)),
{
    reveal(reset);
    let t1 = note(a, Event::SessionReset { full });
    let t2 = Trace {
        m: MachineView {
            server_cookie: 0,
            server_flags: 0,
            connect_sequence: 0,
            last_inbound: 0,
            ..t1.m
        },
        ..t1
    };
    lemma_follows_emit(a, EffectView::Event(Event::SessionReset { full }));
    lemma_follows_same(t1, t2);
    lemma_follows_trans(a, t1, t2);
    if full {
        let (t3, ok) = refresh_cookie(t2);
        lemma_refresh_cookie(t2);
        lemma_balanced_after(t2, t3);
        lemma_follows_trans(a, t2, t3);
        if ok {
            let t4 = Trace {
                m: MachineView { next_outbound: Some(1), next_transaction_id: Some(1), ..t3.m },
                ..t3
            };
            let t5 = fail_all(t4, SessionError::Disconnected);
            let t6 = set_state(t5, State::Connecting);
            lemma_follows_same(t3, t4);
            lemma_follows_fail_all(t4, SessionError::Disconnected);
            lemma_balanced_after(t4, t5);
            lemma_set_state(t5, State::Connecting);
            lemma_balanced_after(t5, t6);
            lemma_queue_control(t6, client_ident(t6.m));
            lemma_follows_trans(a, t3, t4);
            lemma_follows_trans(a, t4, t5);
            lemma_follows_trans(a, t5, t6);
            lemma_follows_trans(a, t6, queue_client_ident(t6));
        }
    } else {
        let t3 = prepare_replay(t2);
        let t4 = set_state(t3, State::Connecting);
        lemma_follows_replay(t2);
        lemma_balanced_after(t2, t3);
        lemma_set_state(t3, State::Connecting);
        lemma_balanced_after(t3, t4);
        lemma_queue_control(t4, client_ident(t4.m));
        lemma_follows_trans(a, t2, t3);
        lemma_follows_trans(a, t3, t4);
        lemma_follows_trans(a, t4, queue_client_ident(t4));
    }
}

pub proof fn lemma_start(a: Trace, ready: bool)
    requires
        balanced(a.m.book),
    ensures
        follows(a, start(a, ready)),
{
    reveal(start);
    lemma_follows_same(a, a);
    let t1 = Trace { m: MachineView { connected_once: true, ..a.m }, ..a };
    lemma_follows_same(a, t1);
    lemma_start_transport(t1, State::Ready);
    lemma_follows_trans(a, t1, start_transport(t1, State::Ready).0);
    lemma_begin_reconnect(a);
}

pub proof fn lemma_free_id(taken: Map<u64, u64>, from: u64)
    ensures
        free_id(taken, from) matches Some(id) ==> id >= from && !taken.contains_key(id),
    decreases u64::MAX - from,
{
    if taken.contains_key(from) && from != u64::MAX {
        lemma_free_id(taken, (from + 1) as u64);
    }
}

/// What becomes of a request that comes in: it waits, or it is refused once. One with the id of a
/// request that waits is refused, and that request goes on waiting.
pub open spec fn joins(a: Trace, b: Trace, id: u64) -> bool {
    &&& !waits(a.m.book, id) && waits(b.m.book, id) ==> !ended(b.out, a.out.len() as int, id)
        && !find(b.m.book.pending, id)->Some_0.may_have_executed
    &&& !waits(b.m.book, id) ==> told(b.out, a.out.len() as int, id)
    &&& waits(a.m.book, id) ==> b.m.book == a.m.book && told(b.out, a.out.len() as int, id)
    &&& admitted(b.out, a.out.len() as int, id) ==> !waits(a.m.book, id) && waits(b.m.book, id)
}

/// One of the effects from `from` on says that a request was accepted.
pub open spec fn admitted(out: Seq<EffectView>, from: int, id: u64) -> bool {
    exists|k: int|
        from <= k < out.len() && (#[trigger] out[k] matches EffectView::Admitted { request_id, .. }
            && request_id == id)
}

/// Neither sends nor gives up a write.
pub open spec fn steady(a: Trace, b: Trace) -> bool {
    unwritten(b.out, a.out.len() as int) && calm(a, b)
}

pub proof fn lemma_accepted(
    a: Trace,
    request_id: u64,
    message: MessageView,
    bytes: u64,
    one_way: bool,
    transaction_id: u64,
)
    requires
        balanced(a.m.book),
        !saturated(a.m, request_id, bytes),
        !a.m.book.by_transaction.contains_key(transaction_id),
        bytes == weight(message),
    ensures
        progress(a, accepted(a, request_id, message, bytes, one_way, transaction_id)),
        joins(a, accepted(a, request_id, message, bytes, one_way, transaction_id), request_id),
        forall|id: u64|
            id != request_id ==> #[trigger] acts(
                a,
                accepted(a, request_id, message, bytes, one_way, transaction_id),
                id,
            ),
        forall|id: u64| #[trigger]
            tracks(a, accepted(a, request_id, message, bytes, one_way, transaction_id), id),
        steady(a, accepted(a, request_id, message, bytes, one_way, transaction_id)),
{
    reveal(progress);
    let b = accepted(a, request_id, message, bytes, one_way, transaction_id);
    let old_pending = a.m.book.pending;
    let pending = b.m.book.pending;
    assert(pending.drop_last() =~= old_pending);
    assert(tidy(b.m.book)) by {
        reveal(tidy);
        assert forall|i: int| 0 <= i < pending.len() implies {
            let p = #[trigger] pending[i];
            p.bytes == weight(p.message) && (p.sent ==> p.may_have_executed)
        } by {
            if i < old_pending.len() {
                assert(pending[i] == old_pending[i]);
            }
        }
    }
    lemma_index_of(old_pending, request_id);
    assert(distinct(pending)) by {
        assert forall|i: int, j: int| 0 <= i < j < pending.len() implies (
        #[trigger] pending[i]).request_id != (#[trigger] pending[j]).request_id by {
            assert(pending[i] == old_pending[i]);
            if j < old_pending.len() {
                assert(pending[j] == old_pending[j]);
            }
        }
    }
    assert forall|i: int| 0 <= i < pending.len() implies {
        let p = #[trigger] pending[i];
        b.m.book.by_transaction.contains_key(p.message.header.transaction_id)
            && b.m.book.by_transaction[p.message.header.transaction_id] == p.request_id
    } by {
        if i < old_pending.len() {
            assert(pending[i] == old_pending[i]);
        }
    }
    assert forall|id: u64| #[trigger] waits(a.m.book, id) implies waits(b.m.book, id) && find(
        pending,
        id,
    ) == find(old_pending, id) by {
        lemma_index_of(old_pending, id);
        let i = index_of(old_pending, id)->Some_0;
        assert(pending[i] == old_pending[i]);
        lemma_index_unique(pending, i);
    }
    assert forall|t: u64| #[trigger] b.m.book.by_transaction.contains_key(t) implies {
        let q = find(pending, b.m.book.by_transaction[t]);
        q is Some && q->Some_0.message.header.transaction_id == t
    } by {
        if t == transaction_id {
            lemma_index_unique(pending, pending.len() - 1);
        } else {
            assert(a.m.book.by_transaction.contains_key(t));
            assert(waits(a.m.book, a.m.book.by_transaction[t]));
        }
    }
    assert forall|k: int| 0 <= k < b.m.book.replay.len() implies numbered(
        pending,
        #[trigger] b.m.book.replay[k],
    ) by {
        assert(numbered(old_pending, a.m.book.replay[k]));
        assert(waits(a.m.book, a.m.book.replay[k]));
    }
    assert(b.out.take(a.out.len() as int) =~= a.out);
    assert forall|id: u64| !ended(b.out, a.out.len() as int, id) by {
        assert forall|k: int| a.out.len() <= k < b.out.len() implies !ends(
            #[trigger] b.out[k],
            id,
        ) by {}
    }
    assert(!ended(b.out, a.out.len() as int, request_id));
    assert forall|id: u64| id != request_id implies #[trigger] acts(a, b, id) by {
        assert(!ended(b.out, a.out.len() as int, id));
        lemma_index_of(pending, id);
        if waits(b.m.book, id) {
            let i = index_of(pending, id)->Some_0;
            assert(pending[i] == old_pending[i]);
            lemma_index_unique(old_pending, i);
        }
    }
    lemma_index_unique(pending, pending.len() - 1);
    assert forall|id: u64| #[trigger] tracks(a, b, id) by {
        assert(!sent_out(b.out, a.out.len() as int, id)) by {
            assert forall|k: int| a.out.len() <= k < b.out.len() implies !sends(
                #[trigger] b.out[k],
                id,
            ) by {}
        }
        if waits(a.m.book, id) {
            assert(find(pending, id) == find(old_pending, id));
        }
    }
}

/// Refusing a request changes nothing else.
pub proof fn lemma_refused(a: Trace, request_id: u64, error: SessionError)
    requires
        balanced(a.m.book),
    ensures
        progress(a, refused(a, request_id, error)),
        joins(a, refused(a, request_id, error), request_id),
        told(refused(a, request_id, error).out, a.out.len() as int, request_id),
        forall|id: u64|
            id != request_id ==> #[trigger] acts(a, refused(a, request_id, error), id),
        forall|id: u64| #[trigger] tracks(a, refused(a, request_id, error), id),
        steady(a, refused(a, request_id, error)),
{
    reveal(progress);
    let b = refused(a, request_id, error);
    let from = a.out.len() as int;
    assert(b.out.take(from) =~= a.out);
    assert(ends(b.out[from], request_id));
    assert(only(b.out, from, request_id, from));
    assert forall|id: u64| id != request_id implies #[trigger] acts(a, b, id) by {
        assert(!ended(b.out, from, id)) by {
            assert forall|k: int| from <= k < b.out.len() implies !ends(#[trigger] b.out[k], id) by {}
        }
    }
    assert forall|id: u64| #[trigger] tracks(a, b, id) by {
        assert(!sent_out(b.out, from, id)) by {
            assert forall|k: int| from <= k < b.out.len() implies !sends(#[trigger] b.out[k], id) by {}
        }
    }
}

/// No transaction id is left: the session ends, and the request that comes in is refused.
pub proof fn lemma_exhausted(a: Trace, t1: Trace, request_id: u64)
    requires
        balanced(a.m.book),
        !waits(a.m.book, request_id),
        follows(a, t1),
    ensures
        ({
            let b = refused(
                fail_terminal(t1, SessionError::TransitionLimit),
                request_id,
                SessionError::TransitionLimit,
            );
            &&& progress(a, b)
            &&& joins(a, b, request_id)
            &&& uncompleted(b.out, a.out.len() as int)
            &&& forall|id: u64| id != request_id ==> #[trigger] acts(a, b, id)
            &&& forall|id: u64| #[trigger] tracks(a, b, id)
            &&& steady(a, b)
        }),
{
    let t2 = fail_terminal(t1, SessionError::TransitionLimit);
    let b = refused(t2, request_id, SessionError::TransitionLimit);
    let from = a.out.len() as int;
    lemma_balanced_after(a, t1);
    lemma_fail_terminal(t1, SessionError::TransitionLimit);
    lemma_follows_trans(a, t1, t2);
    lemma_refused(t2, request_id, SessionError::TransitionLimit);
    reveal(follows);
    lemma_progress_trans(a, t2, b);
    assert(acts(a, t2, request_id));
    assert(b.m == t2.m);
    assert(ends(b.out[t2.out.len() as int], request_id));
    assert(only(b.out, from, request_id, t2.out.len() as int)) by {
        assert forall|j: int| from <= j < b.out.len() && ends(#[trigger] b.out[j], request_id)
            implies j == t2.out.len() by {
            if j < t2.out.len() {
                assert(!ends(t2.out[j], request_id));
            }
        }
    }
    assert forall|id: u64| id != request_id implies #[trigger] acts(a, b, id) by {
        assert(acts(a, t2, id) && kept(a, t2, id) && acts(t2, b, id));
        lemma_acts_trans(a, t2, b, id);
    }
    lemma_tracks_trans(a, t2, b);
}

/// What follows and then tracks, tracks.
pub proof fn lemma_tracks_trans(a: Trace, b: Trace, c: Trace)
    requires
        follows(a, b),
        forall|id: u64| #[trigger] tracks(b, c, id),
        steady(b, c),
        progress(b, c),
        forall|id: u64| waits(c.m.book, id) ==> #[trigger] waits(b.m.book, id),
    ensures
        forall|id: u64| #[trigger] tracks(a, c, id),
        steady(a, c),
{
    lemma_follows_tracks(a, b);
    assert(progress(a, b) && forall|id: u64| #[trigger] acts(a, b, id)) by {
        reveal(follows);
    }
    lemma_progress_trans(a, b, c);
    lemma_calm_trans(a, b, c);
    assert forall|k: int| a.out.len() <= k < c.out.len() implies !writes(#[trigger] c.out[k]) by {
        if k < b.out.len() {
            assert(!writes(b.out[k]));
        }
    }
    assert forall|id: u64| #[trigger] tracks(a, c, id) by {
        assert(tracks(a, b, id) && tracks(b, c, id) && acts(a, b, id));
        assert(waits(c.m.book, id) ==> waits(b.m.book, id));
        assert(!sent_out(c.out, a.out.len() as int, id)) by {
            assert forall|k: int| a.out.len() <= k < c.out.len() implies !sends(
                #[trigger] c.out[k],
                id,
            ) by {
                assert(!writes(c.out[k]));
            }
        }
        assert(!sent_out(b.out, a.out.len() as int, id)) by {
            assert forall|k: int| a.out.len() <= k < b.out.len() implies !sends(
                #[trigger] b.out[k],
                id,
            ) by {
                assert(!writes(b.out[k]));
            }
        }
        assert(!sent_out(c.out, b.out.len() as int, id)) by {
            assert forall|k: int| b.out.len() <= k < c.out.len() implies !sends(
                #[trigger] c.out[k],
                id,
            ) by {
                assert(!writes(c.out[k]));
            }
        }
    }
}

pub proof fn lemma_take_in(a: Trace, request_id: u64, message: MessageView, one_way: bool)
    requires
        balanced(a.m.book),
    ensures
        progress(a, take_in(a, request_id, message, one_way)),
        joins(a, take_in(a, request_id, message, one_way), request_id),
        uncompleted(take_in(a, request_id, message, one_way).out, a.out.len() as int),
        forall|id: u64|
            id != request_id ==> #[trigger] acts(
                a,
                take_in(a, request_id, message, one_way),
                id,
            ),
        forall|id: u64| #[trigger] tracks(a, take_in(a, request_id, message, one_way), id),
        steady(a, take_in(a, request_id, message, one_way)),
{
    reveal(take_in);
    reveal(super::session_model::admission);
    let b = take_in(a, request_id, message, one_way);
    let admissible = super::session_model::admission(a.m.config.limits, message);
    if a.m.terminal_error is Some {
        lemma_refused(a, request_id, a.m.terminal_error->Some_0);
    } else if a.m.state == State::Stopped {
        lemma_refused(a, request_id, SessionError::Closed);
    } else if admissible is Err {
        lemma_refused(a, request_id, SessionError::Malformed);
    } else if saturated(a.m, request_id, admissible->Ok_0) {
        lemma_refused(a, request_id, SessionError::QueueSaturated);
    } else if message.header.transaction_id == 0 {
        let id = next_id(a.m);
        let t1 = Trace {
            m: MachineView {
                next_transaction_id: super::session_model::after_id(id),
                ..a.m
            },
            ..a
        };
        lemma_follows_same(a, t1);
        match id {
            None => {
                lemma_exhausted(a, t1, request_id);
            },
            Some(found) => {
                lemma_free_id(
                    a.m.book.by_transaction,
                    max_u64(a.m.next_transaction_id->Some_0, 1),
                );
                lemma_accepted(t1, request_id, message, admissible->Ok_0, one_way, found);
                assert(progress(a, t1)) by {
                    reveal(follows);
                }
                lemma_progress_trans(a, t1, b);
                assert forall|other: u64| other != request_id implies #[trigger] acts(
                    a,
                    b,
                    other,
                ) by {
                    assert(acts(t1, b, other));
                }
                assert forall|other: u64| #[trigger] tracks(a, b, other) by {
                    assert(tracks(t1, b, other));
                }
            },
        }
    } else if a.m.book.by_transaction.contains_key(message.header.transaction_id) {
        lemma_refused(a, request_id, SessionError::Malformed);
    } else {
        lemma_accepted(
            a,
            request_id,
            message,
            admissible->Ok_0,
            one_way,
            message.header.transaction_id,
        );
    }
}

pub proof fn lemma_cancel(a: Trace, request_id: u64)
    requires
        balanced(a.m.book),
    ensures
        follows(a, cancel(a, request_id)),
{
    reveal(cancel);
    lemma_follows_same(a, a);
    match find(a.m.book.pending, request_id) {
        None => {},
        Some(p) => {
            lemma_index_of(a.m.book.pending, request_id);
            lemma_follows_remove(
                a,
                request_id,
                if p.may_have_executed {
                    SessionError::OutcomeUnknown
                } else {
                    SessionError::Cancelled
                },
            );
        },
    }
}

pub proof fn lemma_mark_counts(pending: Seq<PendingView>, i: int, p: PendingView)
    requires
        0 <= i < pending.len(),
        p.bytes == pending[i].bytes,
    ensures
        held_bytes(pending.update(i, p)) == held_bytes(pending),
        sent_count(pending.update(i, p)) <= sent_count(pending) + 1,
    decreases pending.len(),
{
    let shorter = pending.drop_last();
    if i == pending.len() - 1 {
        assert(pending.update(i, p).drop_last() =~= shorter);
    } else {
        lemma_mark_counts(shorter, i, p);
        assert(pending.update(i, p).drop_last() =~= shorter.update(i, p));
        assert(pending.update(i, p).last() == pending.last());
    }
}

/// Marking the request at `index` as sent, and adding it to those to send again.
pub proof fn lemma_marked(a: Trace, b: Trace, index: int, p: PendingView)
    requires
        balanced(a.m.book),
        0 <= index < a.m.book.pending.len(),
        p.bytes == a.m.book.pending[index].bytes,
        p.request_id == a.m.book.pending[index].request_id,
        p.message.header.transaction_id
            == a.m.book.pending[index].message.header.transaction_id,
        weight(p.message) == weight(a.m.book.pending[index].message),
        p.sequence != 0,
        sent_count(a.m.book.pending) < a.m.config.max_in_flight_transactions,
        b.m.book.pending == a.m.book.pending.update(index, p),
        b.m.book.by_transaction == a.m.book.by_transaction,
        b.m.book.retained_bytes == a.m.book.retained_bytes,
        b.m.book.replay == if a.m.book.replay.contains(p.request_id) {
            a.m.book.replay
        } else {
            a.m.book.replay.push(p.request_id)
        },
        b.m.config == a.m.config,
        b.m.controls == a.m.controls,
        b.m.incoming_count == a.m.incoming_count,
        b.m.reconnect_attempts == a.m.reconnect_attempts,
        b.m.generation == a.m.generation,
        p.may_have_executed,
        b.out == a.out.push(
            EffectView::SendMessage {
                generation: a.m.generation,
                request_id: p.request_id,
                message: p.message,
            },
        ),
    ensures
        progress(a, b),
        forall|id: u64| #[trigger] acts(a, b, id),
        forall|id: u64| #[trigger] tracks(a, b, id),
        uncompleted(b.out, a.out.len() as int),
{
    reveal(progress);
    assert(b.out.take(a.out.len() as int) =~= a.out);
    let old_pending = a.m.book.pending;
    let pending = b.m.book.pending;
    assert(tidy(b.m.book)) by {
        reveal(tidy);
        let replay = a.m.book.replay;
        assert forall|x: int, y: int|
            0 <= x < b.m.book.replay.len() && 0 <= y < b.m.book.replay.len() && x
                != y implies b.m.book.replay[x] != b.m.book.replay[y] by {
            if !replay.contains(p.request_id) {
                if x < replay.len() {
                    assert(replay.contains(replay[x]));
                }
                if y < replay.len() {
                    assert(replay.contains(replay[y]));
                }
            }
        }
        assert forall|i: int| 0 <= i < pending.len() implies {
            let q = #[trigger] pending[i];
            q.bytes == weight(q.message) && (q.sent ==> q.may_have_executed)
        } by {
            assert(old_pending[i].bytes == weight(old_pending[i].message));
        }
    }
    lemma_mark_counts(old_pending, index, p);
    assert(distinct(pending)) by {
        assert forall|i: int, j: int| 0 <= i < j < pending.len() implies (
        #[trigger] pending[i]).request_id != (#[trigger] pending[j]).request_id by {
            assert(old_pending[i].request_id != old_pending[j].request_id);
        }
    }
    assert forall|i: int| 0 <= i < pending.len() implies {
        let q = #[trigger] pending[i];
        b.m.book.by_transaction.contains_key(q.message.header.transaction_id)
            && b.m.book.by_transaction[q.message.header.transaction_id] == q.request_id
    } by {
        assert(old_pending[i].request_id == pending[i].request_id);
        assert(old_pending[i].message.header.transaction_id
            == pending[i].message.header.transaction_id);
    }
    assert forall|id: u64| #[trigger] waits(a.m.book, id) implies waits(b.m.book, id) && (find(
        pending,
        id,
    )->Some_0.sequence != 0 || find(pending, id) == find(old_pending, id)) by {
        lemma_index_of(old_pending, id);
        let i = index_of(old_pending, id)->Some_0;
        assert(pending[i].request_id == id);
        lemma_index_unique(pending, i);
    }
    assert forall|t: u64| #[trigger] b.m.book.by_transaction.contains_key(t) implies {
        let q = find(pending, b.m.book.by_transaction[t]);
        q is Some && q->Some_0.message.header.transaction_id == t
    } by {
        let id = a.m.book.by_transaction[t];
        assert(waits(a.m.book, id));
        lemma_index_of(old_pending, id);
        let i = index_of(old_pending, id)->Some_0;
        assert(pending[i].request_id == id);
        lemma_index_unique(pending, i);
    }
    assert forall|k: int| 0 <= k < b.m.book.replay.len() implies numbered(
        pending,
        #[trigger] b.m.book.replay[k],
    ) by {
        if k < a.m.book.replay.len() {
            assert(b.m.book.replay[k] == a.m.book.replay[k]);
            assert(numbered(old_pending, a.m.book.replay[k]));
            assert(waits(a.m.book, a.m.book.replay[k]));
        } else {
            assert(pending[index].request_id == p.request_id);
            lemma_index_unique(pending, index);
        }
    }
    assert forall|id: u64| #[trigger] acts(a, b, id) by {
        assert(!ended(b.out, a.out.len() as int, id)) by {
            assert forall|k: int| a.out.len() <= k < b.out.len() implies !ends(
                #[trigger] b.out[k],
                id,
            ) by {}
        }
        lemma_index_of(old_pending, id);
        lemma_index_of(pending, id);
        if waits(b.m.book, id) {
            let i = index_of(pending, id)->Some_0;
            assert(old_pending[i].request_id == id);
            lemma_index_unique(old_pending, i);
        }
        if waits(a.m.book, id) {
            assert(waits(b.m.book, id));
        }
    }
    let from = a.out.len() as int;
    assert(sends(b.out[from], p.request_id));
    assert forall|id: u64| #[trigger] tracks(a, b, id) by {
        assert(acts(a, b, id));
        lemma_index_of(old_pending, id);
        lemma_index_of(pending, id);
        if id == p.request_id {
            assert(old_pending[index].request_id == id);
            lemma_index_unique(old_pending, index);
            lemma_index_unique(pending, index);
        } else {
            assert(!sent_out(b.out, from, id)) by {
                assert forall|k: int| from <= k < b.out.len() implies !sends(
                    #[trigger] b.out[k],
                    id,
                ) by {}
            }
            if waits(a.m.book, id) {
                let i = index_of(old_pending, id)->Some_0;
                assert(pending[i] == old_pending[i]);
                lemma_index_unique(pending, i);
            }
        }
    }
}

/// Writing a control payload changes nothing for the requests.
pub proof fn lemma_control_written(a: Trace, b: Trace)
    requires
        balanced(a.m.book),
        a.m.controls.len() > 0,
        b.m == (MachineView { controls: a.m.controls.skip(1), write_busy: true, ..a.m }),
        b.out == a.out.push(
            EffectView::SendControl { generation: a.m.generation, control: a.m.controls[0] },
        ),
    ensures
        progress(a, b),
        forall|id: u64| #[trigger] acts(a, b, id),
        forall|id: u64| #[trigger] tracks(a, b, id),
        uncompleted(b.out, a.out.len() as int),
{
    reveal(progress);
    let from = a.out.len() as int;
    assert(b.out.take(from) =~= a.out);
    assert forall|id: u64| #[trigger] acts(a, b, id) by {
        assert(!ended(b.out, from, id)) by {
            assert forall|k: int| from <= k < b.out.len() implies !ends(#[trigger] b.out[k], id) by {}
        }
    }
    assert forall|id: u64| #[trigger] tracks(a, b, id) by {
        assert(!sent_out(b.out, from, id)) by {
            assert forall|k: int| from <= k < b.out.len() implies !sends(#[trigger] b.out[k], id) by {}
        }
    }
}

pub proof fn lemma_first_unsent(pending: Seq<PendingView>)
    ensures
        match first_unsent(pending) {
            Some(i) => 0 <= i < pending.len() && !pending[i].sent && forall|j: int|
                0 <= j < i ==> (#[trigger] pending[j]).sent,
            None => forall|j: int| 0 <= j < pending.len() ==> (#[trigger] pending[j]).sent,
        },
    decreases pending.len(),
{
    if pending.len() > 0 {
        let shorter = pending.drop_last();
        lemma_first_unsent(shorter);
        match first_unsent(shorter) {
            Some(i) => {
                assert(pending[i] == shorter[i]);
                assert forall|j: int| 0 <= j < i implies (#[trigger] pending[j]).sent by {
                    assert(shorter[j] == pending[j]);
                }
            },
            None => {
                assert forall|j: int| 0 <= j < shorter.len() implies (#[trigger] pending[j]).sent by {
                    assert(shorter[j] == pending[j]);
                }
            },
        }
    }
}

pub proof fn lemma_dispatch(a: Trace)
    requires
        balanced(a.m.book),
    ensures
        progress(a, dispatch(a)),
        forall|id: u64| #[trigger] acts(a, dispatch(a), id),
        forall|id: u64| #[trigger] tracks(a, dispatch(a), id),
        uncompleted(dispatch(a).out, a.out.len() as int),
{
    reveal(dispatch);
    let b = dispatch(a);
    lemma_follows_same(a, a);
    assert(follows(a, b) ==> progress(a, b) && (forall|id: u64| #[trigger] acts(a, b, id)) && (
    forall|id: u64| #[trigger] tracks(a, b, id)) && uncompleted(b.out, a.out.len() as int)) by {
        if follows(a, b) {
            lemma_follows_tracks(a, b);
            reveal(follows);
        }
    }
    if a.m.write_busy || a.m.state == State::Disconnected || a.m.state == State::Wait || a.m.state
        == State::Stopped {
    } else if a.m.controls.len() > 0 {
        lemma_control_written(a, b);
    } else if a.m.state != State::Ready || sent_count(a.m.book.pending)
        >= a.m.config.max_in_flight_transactions {
    } else if a.m.renewal == super::session_model::RenewalState::Draining {
        let t1 = Trace {
            m: MachineView {
                renewal: super::session_model::RenewalState::Reconnecting,
                ..a.m
            },
            ..a
        };
        lemma_follows_same(a, t1);
        lemma_fault(t1, SessionError::Renewal);
        lemma_follows_trans(a, t1, fault(t1, SessionError::Renewal));
    } else {
        lemma_first_unsent(a.m.book.pending);
        match first_unsent(a.m.book.pending) {
            None => {},
            Some(index) => {
                if a.m.book.pending[index].sequence != 0 {
                    lemma_marked(a, b, index, b.m.book.pending[index]);
                } else {
                    match a.m.next_outbound {
                        None => {
                            lemma_fail_terminal(a, SessionError::TransitionLimit);
                        },
                        Some(_) => {
                            lemma_marked(a, b, index, b.m.book.pending[index]);
                        },
                    }
                }
            },
        }
    }
}

pub proof fn lemma_closing(a: Trace, b: Trace, generation: u64)
    requires
        follows(a, b),
    ensures
        follows(a, closing(b, generation)),
{
    lemma_balanced_after(a, b);
    lemma_follows_emit(b, EffectView::CloseTransport { generation });
    lemma_follows_trans(a, b, closing(b, generation));
}

pub proof fn lemma_begin_handshake(a: Trace, generation: u64)
    requires
        balanced(a.m.book),
    ensures
        follows(a, begin_handshake(a, generation)),
{
    reveal(begin_handshake);
    if a.m.server_cookie != 0 {
        if a.m.connect_sequence == u64::MAX {
            lemma_fail_terminal(a, SessionError::TransitionLimit);
            lemma_closing(a, fail_terminal(a, SessionError::TransitionLimit), generation);
        } else {
            let t1 = Trace {
                m: MachineView {
                    connect_sequence: (a.m.connect_sequence + 1) as u64,
                    ..a.m
                },
                ..a
            };
            let (up, ok) = start_transport(t1, State::Reconnecting);
            lemma_follows_same(a, t1);
            lemma_start_transport(t1, State::Reconnecting);
            lemma_follows_trans(a, t1, up);
            lemma_closing(a, up, generation);
            lemma_queue_reconnect(up);
            lemma_follows_trans(a, up, queue_reconnect(up));
        }
    } else {
        let (fresh, refreshed) = refresh_cookie(a);
        lemma_refresh_cookie(a);
        lemma_closing(a, fresh, generation);
        lemma_balanced_after(a, fresh);
        let t1 = Trace { m: MachineView { connect_sequence: 0, ..fresh.m }, ..fresh };
        let (up, ok) = start_transport(t1, State::Connecting);
        lemma_follows_same(fresh, t1);
        lemma_follows_trans(a, fresh, t1);
        lemma_start_transport(t1, State::Connecting);
        lemma_follows_trans(a, t1, up);
        lemma_closing(a, up, generation);
        lemma_queue_control(up, client_ident(up.m));
        lemma_follows_trans(a, up, queue_client_ident(up));
    }
}

pub proof fn lemma_identified(a: Trace, global_id: Option<u64>)
    requires
        balanced(a.m.book),
    ensures
        follows(a, identified(a, global_id).0),
{
    reveal(identified);
    match global_id {
        None => {
            lemma_follows_same(a, a);
        },
        Some(id) => {
            let known = Trace { m: MachineView { authenticated_global_id: id, ..a.m }, ..a };
            lemma_follows_same(a, known);
            lemma_fail_terminal(known, SessionError::Malformed);
            lemma_follows_trans(a, known, fail_terminal(known, SessionError::Malformed));
            if id <= i64::MAX {
                let named = Trace {
                    m: MachineView {
                        config: ConfigView {
                            client_ident: super::control::ClientIdentView {
                                global_id: id as i64,
                                ..known.m.config.client_ident
                            },
                            ..known.m.config
                        },
                        ..known.m
                    },
                    ..known
                };
                lemma_follows_same(known, named);
                lemma_follows_trans(a, known, named);
                lemma_reset_identity(named);
                lemma_follows_trans(a, named, reset_identity(named));
            }
        },
    }
}

pub proof fn lemma_connected(
    a: Trace,
    generation: u64,
    global_id: Option<u64>,
    identity: Option<Seq<u8>>,
)
    requires
        balanced(a.m.book),
    ensures
        follows(a, connected(a, generation, global_id, identity)),
{
    reveal(connected);
    lemma_follows_same(a, a);
    lemma_closing(a, a, generation);
    if generation == a.m.generation && a.m.connect_pending {
        let met = Trace {
            m: MachineView {
                connect_pending: false,
                terminal_error: None,
                transitions: 0,
                ..a.m
            },
            ..a
        };
        lemma_follows_same(a, met);
        lemma_fail_terminal(met, SessionError::TransitionLimit);
        lemma_follows_trans(a, met, fail_terminal(met, SessionError::TransitionLimit));
        lemma_closing(a, fail_terminal(met, SessionError::TransitionLimit), generation);
        if !(met.m.connected_once && met.m.global_sequence == u64::MAX) {
            let again = Trace {
                m: MachineView {
                    global_sequence: if met.m.connected_once {
                        (met.m.global_sequence + 1) as u64
                    } else {
                        met.m.global_sequence
                    },
                    connected_once: true,
                    ..met.m
                },
                ..met
            };
            let (known, ok) = identified(again, global_id);
            let seen = Trace { m: credential_seen(known.m, identity), ..known };
            lemma_follows_same(met, again);
            lemma_follows_trans(a, met, again);
            lemma_identified(again, global_id);
            lemma_follows_trans(a, again, known);
            lemma_closing(a, known, generation);
            lemma_follows_same(known, seen);
            lemma_follows_trans(a, known, seen);
            lemma_begin_handshake(seen, generation);
            lemma_follows_trans(a, seen, begin_handshake(seen, generation));
        }
    }
}

/// What a whole step keeps.
#[verifier::opaque]
pub open spec fn proceeds(a: Trace, b: Trace) -> bool {
    &&& progress(a, b)
    &&& forall|id: u64| #[trigger] acts(a, b, id)
    &&& forall|id: u64| #[trigger] tracks(a, b, id)
}

pub proof fn lemma_proceeds(a: Trace, b: Trace)
    requires
        follows(a, b),
    ensures
        proceeds(a, b),
{
    lemma_follows_tracks(a, b);
    reveal(follows);
    reveal(proceeds);
}

pub proof fn lemma_proceeds_trans(a: Trace, b: Trace, c: Trace)
    requires
        follows(a, b),
        proceeds(b, c),
        steady(b, c),
    ensures
        proceeds(a, c),
        steady(a, c),
{
    reveal(follows);
    reveal(proceeds);
    assert forall|id: u64| waits(c.m.book, id) implies #[trigger] waits(b.m.book, id) by {
        assert(acts(b, c, id));
    }
    lemma_tracks_trans(a, b, c);
    lemma_progress_trans(a, b, c);
    assert forall|id: u64| #[trigger] acts(a, c, id) by {
        assert(acts(a, b, id) && kept(a, b, id) && acts(b, c, id));
        lemma_acts_trans(a, b, c, id);
    }
}

/// Every effect from `from` on that completes a request brings this reply for it.
pub open spec fn replies(out: Seq<EffectView>, from: int, id: u64, reply: Option<MessageView>) -> bool {
    forall|k: int|
        from <= k < out.len() && #[trigger] out[k] is Completed ==> out[k]
            == (EffectView::Completed { request_id: id, reply })
}

pub proof fn lemma_deliver(a: Trace, message: MessageView)
    requires
        balanced(a.m.book),
    ensures
        proceeds(a, deliver(a, message)),
        steady(a, deliver(a, message)),
        match answered(a.m.book, message.header.transaction_id) {
            Some(id) => waits(a.m.book, id) && replies(
                deliver(a, message).out,
                a.out.len() as int,
                id,
                Some(message),
            ),
            None => uncompleted(deliver(a, message).out, a.out.len() as int),
        },
{
    reveal(deliver);
    let b = deliver(a, message);
    match answered(a.m.book, message.header.transaction_id) {
        Some(id) => {
            lemma_remove(
                a,
                id,
                EffectView::Completed { request_id: id, reply: Some(message) },
            );
            reveal(proceeds);
        },
        None => {
            if a.m.incoming_count >= a.m.config.max_queued_messages {
                lemma_fail_terminal(a, SessionError::QueueSaturated);
            } else {
                let t1 = Trace {
                    m: MachineView {
                        incoming_count: (a.m.incoming_count + 1) as usize,
                        ..a.m
                    },
                    ..a
                };
                lemma_follows_same(a, t1);
                lemma_follows_emit(t1, EffectView::Incoming(message));
                lemma_follows_trans(a, t1, b);
            }
            lemma_proceeds(a, b);
            lemma_follows_tracks(a, b);
            reveal(follows);
        },
    }
}

/// The effects of a message: only a request that was sent, and whose transaction the message
/// names, is completed by it.
pub open spec fn answers(a: Trace, b: Trace, message: MessageView) -> bool {
    forall|k: int|
        a.out.len() <= k < b.out.len() && #[trigger] b.out[k] is Completed ==> {
            let id = b.out[k]->Completed_request_id;
            &&& b.out[k] == (EffectView::Completed { request_id: id, reply: Some(message) })
            &&& waits(a.m.book, id)
            &&& find(a.m.book.pending, id)->Some_0.may_have_executed
            &&& find(a.m.book.pending, id)->Some_0.message.header.transaction_id
                == message.header.transaction_id
        }
}

pub proof fn lemma_receive(a: Trace, message: MessageView)
    requires
        balanced(a.m.book),
    ensures
        proceeds(a, receive(a, message)),
        steady(a, receive(a, message)),
        answers(a, receive(a, message), message),
{
    reveal(receive);
    let b = receive(a, message);
    let sequence = message.header.sequence;
    assert(follows(a, b) ==> proceeds(a, b) && steady(a, b) && answers(a, b, message)) by {
        reveal(follows);
        if follows(a, b) {
            lemma_proceeds(a, b);
            lemma_follows_tracks(a, b);
        }
    }
    if a.m.state != State::Ready {
        lemma_fault(a, SessionError::Malformed);
    } else {
        let (checked, ok) = accept_acknowledgment(a, message.header.ack_sequence);
        lemma_accept(a, message.header.ack_sequence);
        if ok {
            lemma_balanced_after(a, checked);
            if sequence <= checked.m.last_inbound {
                lemma_follows_emit(
                    checked,
                    EffectView::Event(Event::DuplicateDropped { sequence }),
                );
                lemma_follows_trans(a, checked, b);
            } else {
                let expected = (checked.m.last_inbound + 1) as u64;
                let told = if sequence != expected {
                    note(checked, Event::SequenceGap { sequence, expected })
                } else {
                    checked
                };
                lemma_follows_emit(
                    checked,
                    EffectView::Event(Event::SequenceGap { sequence, expected }),
                );
                lemma_follows_same(checked, checked);
                lemma_follows_trans(a, checked, told);
                let marked = Trace {
                    m: MachineView { last_inbound: sequence, ..told.m },
                    ..told
                };
                lemma_follows_same(told, marked);
                lemma_follows_trans(a, told, marked);
                let seen = trim_replay(marked, message.header.ack_sequence);
                lemma_follows_trim(marked, message.header.ack_sequence);
                lemma_follows_trans(a, marked, seen);
                let queued = queue_control(seen, ControlView::Ack(sequence));
                lemma_queue_control(seen, ControlView::Ack(sequence));
                lemma_follows_trans(a, seen, queued);
                lemma_deliver(queued, message);
                lemma_proceeds_trans(a, queued, b);
                lemma_answers(a, queued, message);
            }
        }
    }
}

pub proof fn lemma_answers(a: Trace, mid: Trace, message: MessageView)
    requires
        follows(a, mid),
        balanced(mid.m.book),
    ensures
        answers(a, deliver(mid, message), message),
{
    let b = deliver(mid, message);
    lemma_deliver(mid, message);
    reveal(follows);
    reveal(proceeds);
    lemma_progress_trans(a, mid, b);
    assert forall|k: int| a.out.len() <= k < b.out.len() && #[trigger] b.out[k] is Completed implies {
        let id = b.out[k]->Completed_request_id;
        &&& b.out[k] == (EffectView::Completed { request_id: id, reply: Some(message) })
        &&& waits(a.m.book, id)
        &&& find(a.m.book.pending, id)->Some_0.may_have_executed
        &&& find(a.m.book.pending, id)->Some_0.message.header.transaction_id
            == message.header.transaction_id
    } by {
        if k < mid.out.len() {
            assert(!(mid.out[k] is Completed));
        }
        let id = answered(mid.m.book, message.header.transaction_id)->Some_0;
        assert(mid.m.book.by_transaction.contains_key(message.header.transaction_id));
        assert(acts(a, mid, id));
        assert(kept(a, mid, id));
    }
}

pub proof fn lemma_counted(a: Trace)
    requires
        balanced(a.m.book),
    ensures
        follows(a, counted(a)),
{
    lemma_follows_same(a, counted(a));
}

pub proof fn lemma_server_ident(a: Trace, ident: super::control::ServerIdentView)
    requires
        balanced(a.m.book),
    ensures
        follows(a, server_ident(a, ident)),
{
    reveal(server_ident);
    let known = counted(a);
    lemma_counted(a);
    lemma_fault(a, SessionError::Malformed);
    lemma_fault(known, SessionError::TransitionLimit);
    lemma_follows_trans(a, known, fault(known, SessionError::TransitionLimit));
    lemma_fail_terminal(known, SessionError::UnsupportedFeature);
    lemma_follows_trans(a, known, fail_terminal(known, SessionError::UnsupportedFeature));
    lemma_fault(known, SessionError::Malformed);
    lemma_follows_trans(a, known, fault(known, SessionError::Malformed));
    let named = Trace {
        m: MachineView {
            server_cookie: ident.cookie,
            server_global_id: ident.global_id,
            server_addresses: ident.addresses,
            server_features: ident.supported_features,
            server_flags: ident.flags,
            ..known.m
        },
        ..known
    };
    lemma_follows_same(known, named);
    lemma_follows_trans(a, known, named);
    let failed = fail_sent(named);
    lemma_follows_fail_sent(named);
    lemma_follows_trans(a, named, failed);
    let renewed = complete_renewal(failed).0;
    lemma_complete_renewal(failed);
    lemma_follows_trans(a, failed, renewed);
    let fresh = Trace { m: MachineView { reconnect_attempts: 0, ..renewed.m }, ..renewed };
    lemma_follows_same(renewed, fresh);
    lemma_follows_trans(a, renewed, fresh);
    lemma_set_state(fresh, State::Ready);
    lemma_follows_trans(a, fresh, set_state(fresh, State::Ready));
}

pub proof fn lemma_retry(a: Trace, connect_sequence: u64)
    requires
        balanced(a.m.book),
    ensures
        follows(a, retry(a, connect_sequence)),
{
    reveal(retry);
    let (allowed, ok) = transition_allowed(a, State::Reconnecting);
    lemma_transition_allowed(a, State::Reconnecting);
    lemma_balanced_after(a, allowed);
    lemma_fail_terminal(allowed, SessionError::TransitionLimit);
    lemma_follows_trans(a, allowed, fail_terminal(allowed, SessionError::TransitionLimit));
    if ok && connect_sequence != u64::MAX {
        let next = (connect_sequence + 1) as u64;
        let t1 = Trace { m: MachineView { connect_sequence: next, ..allowed.m }, ..allowed };
        lemma_follows_same(allowed, t1);
        lemma_follows_trans(a, allowed, t1);
        let t2 = note(t1, Event::Retry { sequence: next });
        lemma_follows_emit(t1, EffectView::Event(Event::Retry { sequence: next }));
        lemma_follows_trans(a, t1, t2);
        lemma_queue_reconnect(t2);
        lemma_follows_trans(a, t2, queue_reconnect(t2));
    }
}

pub proof fn lemma_retry_global(a: Trace, global_sequence: u64)
    requires
        balanced(a.m.book),
    ensures
        follows(a, retry_global(a, global_sequence)),
{
    reveal(retry_global);
    let (allowed, ok) = transition_allowed(a, State::Reconnecting);
    let highest = max_u64(allowed.m.global_sequence, global_sequence);
    lemma_transition_allowed(a, State::Reconnecting);
    lemma_balanced_after(a, allowed);
    lemma_fail_terminal(allowed, SessionError::TransitionLimit);
    lemma_follows_trans(a, allowed, fail_terminal(allowed, SessionError::TransitionLimit));
    if ok && highest != u64::MAX {
        let next = (highest + 1) as u64;
        let t1 = Trace { m: MachineView { global_sequence: next, ..allowed.m }, ..allowed };
        lemma_follows_same(allowed, t1);
        lemma_follows_trans(a, allowed, t1);
        let t2 = note(t1, Event::RetryGlobal { sequence: next });
        lemma_follows_emit(t1, EffectView::Event(Event::RetryGlobal { sequence: next }));
        lemma_follows_trans(a, t1, t2);
        lemma_queue_reconnect(t2);
        lemma_follows_trans(a, t2, queue_reconnect(t2));
    }
}

pub proof fn lemma_wait(a: Trace)
    requires
        balanced(a.m.book),
    ensures
        follows(a, wait(a)),
{
    reveal(wait);
    lemma_fault(a, SessionError::Malformed);
    let t1 = counted(a);
    let t2 = set_state(t1, State::Wait);
    let t3 = note(t2, Event::Wait);
    lemma_counted(a);
    lemma_set_state(t1, State::Wait);
    lemma_follows_trans(a, t1, t2);
    lemma_follows_emit(t2, EffectView::Event(Event::Wait));
    lemma_follows_trans(a, t2, t3);
    lemma_fault(t3, SessionError::Disconnected);
    lemma_follows_trans(a, t3, fault(t3, SessionError::Disconnected));
}

pub proof fn lemma_reconnect_ok(a: Trace, message_sequence: u64)
    requires
        balanced(a.m.book),
    ensures
        follows(a, reconnect_ok(a, message_sequence)),
{
    reveal(reconnect_ok);
    let (allowed, ok) = transition_allowed(a, State::Reconnecting);
    lemma_transition_allowed(a, State::Reconnecting);
    lemma_balanced_after(a, allowed);
    let (checked, acceptable) = accept_acknowledgment(allowed, message_sequence);
    lemma_accept(allowed, message_sequence);
    lemma_follows_trans(a, allowed, checked);
    let t1 = trim_replay(checked, message_sequence);
    lemma_follows_trim(checked, message_sequence);
    lemma_follows_trans(a, checked, t1);
    let t2 = prepare_replay(t1);
    lemma_follows_replay(t1);
    lemma_follows_trans(a, t1, t2);
    let renewed = complete_renewal(t2).0;
    lemma_complete_renewal(t2);
    lemma_follows_trans(a, t2, renewed);
    let t3 = Trace { m: MachineView { reconnect_attempts: 0, ..renewed.m }, ..renewed };
    lemma_follows_same(renewed, t3);
    lemma_follows_trans(a, renewed, t3);
    let t4 = set_state(t3, State::Ready);
    lemma_set_state(t3, State::Ready);
    lemma_follows_trans(a, t3, t4);
    lemma_follows_emit(
        t4,
        EffectView::Event(Event::ReconnectOk { sequence: message_sequence }),
    );
    lemma_follows_trans(a, t4, note(t4, Event::ReconnectOk { sequence: message_sequence }));
}

pub proof fn lemma_acknowledge(a: Trace, sequence: u64)
    requires
        balanced(a.m.book),
    ensures
        follows(a, acknowledge(a, sequence)),
{
    reveal(acknowledge);
    let (ready, ok) = require_ready(a);
    lemma_require_ready(a);
    lemma_balanced_after(a, ready);
    let (checked, acceptable) = accept_acknowledgment(ready, sequence);
    lemma_accept(ready, sequence);
    lemma_follows_trans(a, ready, checked);
    let t1 = trim_replay(checked, sequence);
    lemma_follows_trim(checked, sequence);
    lemma_follows_trans(a, checked, t1);
    lemma_follows_emit(t1, EffectView::Event(Event::Acknowledged { sequence }));
    lemma_follows_trans(a, t1, note(t1, Event::Acknowledged { sequence }));
}

pub proof fn lemma_controlled(a: Trace, control: ControlView)
    requires
        balanced(a.m.book),
    ensures
        follows(a, controlled(a, control)),
{
    reveal(controlled);
    let ready = require_ready(a).0;
    lemma_require_ready(a);
    lemma_balanced_after(a, ready);
    let allowed = transition_allowed(a, State::Reconnecting).0;
    lemma_transition_allowed(a, State::Reconnecting);
    lemma_balanced_after(a, allowed);
    match control {
        ControlView::Ack(sequence) => {
            lemma_acknowledge(a, sequence);
        },
        ControlView::Keepalive2(time) => {
            lemma_queue_control(ready, ControlView::Keepalive2Ack(time));
            lemma_follows_trans(
                a,
                ready,
                queue_control(ready, ControlView::Keepalive2Ack(time)),
            );
        },
        ControlView::Keepalive2Ack(_) => {
            lemma_follows_emit(ready, EffectView::Event(Event::KeepaliveAck));
            lemma_follows_trans(a, ready, note(ready, Event::KeepaliveAck));
        },
        ControlView::SessionReset(v) => {
            lemma_reset(allowed, v.full);
            lemma_follows_trans(a, allowed, reset(allowed, v.full));
        },
        ControlView::SessionRetry(v) => {
            lemma_retry(a, v.connect_sequence);
        },
        ControlView::SessionRetryGlobal(v) => {
            lemma_retry_global(a, v.global_sequence);
        },
        ControlView::Wait => {
            lemma_wait(a);
        },
        ControlView::SessionReconnectOk(v) => {
            lemma_reconnect_ok(a, v.message_sequence);
        },
        ControlView::ServerIdent(ident) => {
            lemma_server_ident(a, ident);
        },
        ControlView::IdentMissingFeatures(_) => {
            lemma_fail_terminal(a, SessionError::UnsupportedPayload);
        },
        _ => {
            lemma_fault(a, SessionError::UnsupportedPayload);
        },
    }
}

pub proof fn lemma_stop(a: Trace)
    requires
        balanced(a.m.book),
    ensures
        follows(a, stop(a)),
{
    reveal(stop);
    lemma_follows_same(a, a);
    let t1 = set_state(a, State::Stopped);
    lemma_set_state(a, State::Stopped);
    lemma_balanced_after(a, t1);
    let t2 = fail_all(t1, SessionError::Closed);
    lemma_follows_fail_all(t1, SessionError::Closed);
    lemma_follows_trans(a, t1, t2);
    let t3 = Trace { m: MachineView { connect_pending: false, ..t2.m }, ..t2 };
    lemma_follows_same(t2, t3);
    lemma_follows_trans(a, t2, t3);
    lemma_closing(a, t3, a.m.generation);
}

pub proof fn lemma_renewal_due(a: Trace, generation: u64)
    requires
        balanced(a.m.book),
    ensures
        follows(a, renewal_due(a, generation)),
{
    reveal(renewal_due);
    lemma_follows_same(a, a);
    let m = MachineView { renewal: super::session_model::RenewalState::Draining, ..a.m };
    lemma_follows_same(a, (Trace { m, ..a }));
    lemma_follows_note(a, m, Event::CredentialRenewal);
    let t2 = Trace {
        m: MachineView {
            renewal_pending: super::session_model::RenewalPending::Yes,
            ..a.m
        },
        ..a
    };
    lemma_follows_same(a, t2);
}

pub proof fn lemma_written(
    a: Trace,
    generation: u64,
    request_id: Option<u64>,
    result: Result<(), SessionError>,
)
    requires
        balanced(a.m.book),
    ensures
        proceeds(a, written(a, generation, request_id, result)),
        forall|k: int|
            a.out.len() <= k < written(a, generation, request_id, result).out.len() ==> !(
            #[trigger] written(a, generation, request_id, result).out[k] is Completed
                && written(a, generation, request_id, result).out[k]->reply is Some),
        unwritten(written(a, generation, request_id, result).out, a.out.len() as int),
        written(a, generation, request_id, result).m.write_busy ==> a.m.write_busy,
{
    reveal(written);
    let b = written(a, generation, request_id, result);
    let free = Trace { m: MachineView { write_busy: false, ..a.m }, ..a };
    lemma_follows_same(a, a);
    lemma_proceeds(a, a);
    lemma_follows_same(free, free);
    assert(follows(free, b) ==> proceeds(free, b) && uncompleted(b.out, a.out.len() as int)
        && steady(free, b)) by {
        reveal(follows);
        if follows(free, b) {
            lemma_proceeds(free, b);
            lemma_follows_tracks(free, b);
        }
    }
    assert(proceeds(free, b) ==> proceeds(a, b)) by {
        reveal(proceeds);
        reveal(progress);
        if proceeds(free, b) {
            assert forall|id: u64| #[trigger] acts(a, b, id) by {
                assert(acts(free, b, id));
            }
            assert forall|id: u64| #[trigger] tracks(a, b, id) by {
                assert(tracks(free, b, id));
            }
        }
    }
    if generation == a.m.generation {
        match result {
            Err(error) => {
                lemma_fault(free, error);
            },
            Ok(_) => {
                match request_id {
                    None => {},
                    Some(id) => {
                        lemma_index_of(free.m.book.pending, id);
                        match find(free.m.book.pending, id) {
                            None => {},
                            Some(p) => {
                                if p.one_way {
                                    let effect = EffectView::Completed {
                                        request_id: id,
                                        reply: None,
                                    };
                                    lemma_remove(free, id, effect);
                                    assert(proceeds(free, b)) by {
                                        reveal(proceeds);
                                    }
                                }
                            },
                        }
                    },
                }
            },
        }
    }
}

/// Whether an input is the submission of a request with this id.
pub open spec fn submits(input: InputView, id: u64) -> bool {
    input matches InputView::Admit { request_id, .. } && request_id == id
}

/// Only a message completes a request with a reply, and it does so as `answers` says.
pub open spec fn completes(a: Trace, b: Trace, input: InputView) -> bool {
    match input {
        InputView::Message { message, .. } => answers(a, b, message),
        _ => forall|k: int|
            a.out.len() <= k < b.out.len() ==> !(#[trigger] b.out[k] is Completed
                && b.out[k]->reply is Some),
    }
}

pub proof fn lemma_next(a: Trace, input: InputView)
    requires
        balanced(a.m.book),
    ensures
        progress(a, next(a, input)),
        completes(a, next(a, input), input),
        forall|id: u64| !submits(input, id) ==> #[trigger] acts(a, next(a, input), id),
        forall|id: u64| #[trigger] tracks(a, next(a, input), id),
        !(input is Dispatch || input is WriteComplete) ==> steady(a, next(a, input)),
        input is WriteComplete ==> unwritten(next(a, input).out, a.out.len() as int) && (next(
            a,
            input,
        ).m.write_busy ==> a.m.write_busy),
        input matches InputView::Admit { request_id, .. } ==> joins(
            a,
            next(a, input),
            request_id,
        ),
{
    let b = next(a, input);
    lemma_follows_same(a, a);
    if follows(a, b) {
        reveal(follows);
    }
    if proceeds(a, b) {
        reveal(proceeds);
    }
    assert(follows(a, b) ==> (forall|id: u64| #[trigger] tracks(a, b, id)) && steady(a, b)) by {
        if follows(a, b) {
            lemma_follows_tracks(a, b);
        }
    }
    match input {
        InputView::Start { ready } => {
            lemma_start(a, ready);
        },
        InputView::InitialConnection { authenticated_global_id, credential_identity } => {
            let t1 = Trace { m: MachineView { connect_pending: true, ..a.m }, ..a };
            lemma_follows_same(a, t1);
            lemma_connected(t1, a.m.generation, authenticated_global_id, credential_identity);
            lemma_follows_trans(
                a,
                t1,
                connected(t1, a.m.generation, authenticated_global_id, credential_identity),
            );
        },
        InputView::InitialIdentity { generation, authenticated_global_id, credential_identity } => {
            lemma_follows_same(a, b);
        },
        InputView::Admit { request_id, message, one_way } => {
            lemma_take_in(a, request_id, message, one_way);
        },
        InputView::Cancel { request_id } => {
            lemma_cancel(a, request_id);
        },
        InputView::Dispatch => {
            lemma_dispatch(a);
        },
        InputView::WriteComplete { generation, request_id, result } => {
            lemma_written(a, generation, request_id, result);
        },
        InputView::Connected { generation, authenticated_global_id, credential_identity } => {
            lemma_connected(a, generation, authenticated_global_id, credential_identity);
        },
        InputView::ConnectFailed { generation } => {
            let t1 = Trace { m: MachineView { connect_pending: false, ..a.m }, ..a };
            let t2 = note(t1, Event::TransportFault(SessionError::Disconnected));
            lemma_follows_same(a, t1);
            lemma_follows_note(
                a,
                t1.m,
                Event::TransportFault(SessionError::Disconnected),
            );
            lemma_begin_reconnect(t2);
            lemma_follows_trans(a, t2, begin_reconnect(t2));
        },
        InputView::Control { generation, control } => {
            lemma_controlled(a, control);
        },
        InputView::Message { generation, message } => {
            lemma_receive(a, message);
        },
        InputView::Fault { generation, error } => {
            lemma_fault(a, error);
        },
        InputView::RenewalDue { generation } => {
            lemma_renewal_due(a, generation);
        },
        InputView::ConsumeIncoming => {
            lemma_follows_same(a, b);
        },
        InputView::Stop => {
            lemma_stop(a);
        },
    }
}

// ---------------------------------------------------------------------------
// Laws
// ---------------------------------------------------------------------------

/// Every step keeps the books: ids are distinct, transactions and requests point at each other,
/// what is retained is what the requests hold, and only requests that wait are to be sent again.
/// The bounds of the configuration go on holding, its limits stay as they are, and generations
/// never go back.
pub proof fn law_step_keeps_the_books(m: MachineView, input: InputView)
    requires
        balanced(m.book),
    ensures
        balanced(stepped(m, input).m.book),
        within(m) ==> within(stepped(m, input).m),
        same_limits(m.config, stepped(m, input).m.config),
        m.generation <= stepped(m, input).m.generation,
{
    lemma_next(Trace { m, out: Seq::empty() }, input);
    reveal(progress);
}

/// A request that waits goes on waiting and is told nothing, or stops waiting and is told exactly
/// once how it ended. A request that does not wait is told nothing.
pub proof fn law_every_request_ends_once(m: MachineView, input: InputView, id: u64)
    requires
        balanced(m.book),
        !submits(input, id),
    ensures
        waits(stepped(m, input).m.book, id) ==> waits(m.book, id),
        waits(stepped(m, input).m.book, id) || !waits(m.book, id) ==> !ended(
            stepped(m, input).out,
            0,
            id,
        ),
        waits(m.book, id) && !waits(stepped(m, input).m.book, id) ==> exists|k: int|
            0 <= k < stepped(m, input).out.len() && ends(#[trigger] stepped(m, input).out[k], id)
                && only(stepped(m, input).out, 0, id, k),
{
    let a = Trace { m, out: Seq::empty() };
    lemma_next(a, input);
    assert(acts(a, stepped(m, input), id));
}

/// A request that comes in waits from then on, or is refused once. One that brings the id of a
/// request that waits is refused, and the books stay as they are.
pub proof fn law_every_submission_is_answered(
    m: MachineView,
    request_id: u64,
    message: MessageView,
    one_way: bool,
)
    requires
        balanced(m.book),
    ensures
        ({
            let s = stepped(m, InputView::Admit { request_id, message, one_way });
            &&& !waits(m.book, request_id) && waits(s.m.book, request_id) ==> !ended(
                s.out,
                0,
                request_id,
            )
            &&& !waits(s.m.book, request_id) ==> told(s.out, 0, request_id)
            &&& waits(m.book, request_id) ==> s.m.book == m.book && told(s.out, 0, request_id)
        }),
{
    lemma_next(
        Trace { m, out: Seq::empty() },
        InputView::Admit { request_id, message, one_way },
    );
}

/// A request that was sent may have been carried out: where it fails, its submitter is told that
/// the outcome is unknown, and nothing else.
pub proof fn law_failed_sent_request_is_unknown(m: MachineView, input: InputView, id: u64, k: int)
    requires
        balanced(m.book),
        !submits(input, id),
        waits(m.book, id),
        find(m.book.pending, id)->Some_0.may_have_executed,
        0 <= k < stepped(m, input).out.len(),
    ensures
        stepped(m, input).out[k] matches EffectView::Failed { request_id, error }
            ==> request_id == id ==> error == SessionError::OutcomeUnknown,
{
    let a = Trace { m, out: Seq::empty() };
    let out = stepped(m, input).out;
    lemma_next(a, input);
    assert(acts(a, stepped(m, input), id));
    if ends(out[k], id) {
        let j = choose|j: int|
            0 <= j < out.len() && ends(#[trigger] out[j], id) && only(out, 0, id, j) && honest(
                out[j],
                true,
            );
        assert(ends(out[j], id));
    }
}

/// A reply goes to a request that was sent and has the reply's transaction. No input but a message
/// completes a request with a reply.
pub proof fn law_reply_completes_a_sent_request(m: MachineView, input: InputView, k: int)
    requires
        balanced(m.book),
        0 <= k < stepped(m, input).out.len(),
    ensures
        stepped(m, input).out[k] matches EffectView::Completed { request_id, reply: Some(reply) }
            ==> {
            &&& input matches InputView::Message { message, .. } && message == reply
            &&& find(m.book.pending, request_id) matches Some(p) && p.may_have_executed
                && p.message.header.transaction_id == reply.header.transaction_id
        },
{
    lemma_next(Trace { m, out: Seq::empty() }, input);
}

/// The generation of the connection that an input comes from.
pub open spec fn origin(input: InputView) -> Option<u64> {
    match input {
        InputView::InitialIdentity { generation, .. } => Some(generation),
        InputView::WriteComplete { generation, .. } => Some(generation),
        InputView::ConnectFailed { generation } => Some(generation),
        InputView::Control { generation, .. } => Some(generation),
        InputView::Message { generation, .. } => Some(generation),
        InputView::Fault { generation, .. } => Some(generation),
        InputView::RenewalDue { generation } => Some(generation),
        _ => None,
    }
}

/// What comes from a connection of another generation changes nothing and asks for nothing.
pub proof fn law_stale_input_changes_nothing(m: MachineView, input: InputView)
    requires
        origin(input) is Some,
        origin(input)->Some_0 != m.generation,
    ensures
        stepped(m, input) == (Trace { m, out: Seq::empty() }),
{
    reveal(written);
    reveal(renewal_due);
}

/// A connection of another generation is closed and changes nothing.
pub proof fn law_stale_connection_is_closed(
    m: MachineView,
    generation: u64,
    authenticated_global_id: Option<u64>,
    credential_identity: Option<Seq<u8>>,
)
    requires
        generation != m.generation,
    ensures
        stepped(
            m,
            InputView::Connected { generation, authenticated_global_id, credential_identity },
        ) == (Trace { m, out: seq![EffectView::CloseTransport { generation }] }),
{
    reveal(connected);
}

/// Whether a peer may acknowledge this sequence number.
pub open spec fn acknowledgeable(m: MachineView, sequence: u64) -> bool {
    m.next_outbound is None || sequence == 0 || sequence < m.next_outbound->Some_0
}

/// A message whose sequence number was seen before is dropped.
pub proof fn law_duplicate_is_dropped(m: MachineView, message: MessageView)
    requires
        m.state == State::Ready,
        acknowledgeable(m, message.header.ack_sequence),
        message.header.sequence <= m.last_inbound,
    ensures
        stepped(m, InputView::Message { generation: m.generation, message }) == (Trace {
            m,
            out: seq![
                EffectView::Event(
                    Event::DuplicateDropped { sequence: message.header.sequence },
                ),
            ],
        }),
{
    reveal(receive);
    reveal(accept_acknowledgment);
}

/// An acknowledgment ends no request: it only takes the requests that it covers off those to send
/// again.
pub proof fn law_acknowledgment_keeps_requests(m: MachineView, sequence: u64)
    requires
        m.state == State::Ready,
        acknowledgeable(m, sequence),
    ensures
        stepped(
            m,
            InputView::Control {
                generation: m.generation,
                control: ControlView::Ack(sequence),
            },
        ) == (Trace {
            m: MachineView {
                book: Book { replay: trimmed(m.book.replay, m.book.pending, sequence), ..m.book },
                ..m
            },
            out: seq![EffectView::Event(Event::Acknowledged { sequence })],
        }),
{
    reveal(controlled);
    reveal(acknowledge);
    reveal(require_ready);
    reveal(accept_acknowledgment);
}

/// A request is sent the first time with the next sequence number, which is not used again, and
/// every later time as it was sent first.
pub proof fn law_dispatch_numbers_requests(m: MachineView, k: int)
    requires
        balanced(m.book),
        0 <= k < stepped(m, InputView::Dispatch).out.len(),
    ensures
        stepped(m, InputView::Dispatch).out[k] matches EffectView::SendMessage {
            request_id,
            message,
            ..
        } ==> {
            let s = stepped(m, InputView::Dispatch).m;
            &&& find(m.book.pending, request_id) matches Some(p) && if p.sequence != 0 {
                message == p.message && s.next_outbound == m.next_outbound
            } else {
                &&& m.next_outbound is Some
                &&& message.header.sequence == max_u64(m.next_outbound->Some_0, 1)
                &&& s.next_outbound matches Some(next) ==> next > message.header.sequence
                &&& message == (MessageView {
                    header: super::message::MessageHeader {
                        sequence: message.header.sequence,
                        ..p.message.header
                    },
                    ..p.message
                })
            }
        },
{
    reveal(dispatch);
    let a = Trace { m, out: Seq::<EffectView>::empty() };
    lemma_first_unsent(m.book.pending);
    match first_unsent(m.book.pending) {
        None => {},
        Some(i) => {
            lemma_index_unique(m.book.pending, i);
        },
    }
    lemma_fail_terminal(a, SessionError::TransitionLimit);
    let draining = Trace {
        m: MachineView { renewal: super::session_model::RenewalState::Reconnecting, ..m },
        ..a
    };
    lemma_fault(draining, SessionError::Renewal);
    reveal(follows);
}

} // verus!
