//! What holds of a session over all the inputs that it takes, from the first on.

use super::message::MessageView;
use super::session_laws::{
    acts, admitted, balanced, calm, ended, ends, honest, joins, law_step_keeps_the_books,
    lemma_first_unsent, lemma_next, lemma_tidy_empty, numbered, only, same_limits, sends, sent_out,
    settled, steady, submits, tidy, tracks, unwritten, waits, weight, within, writes,
};
use super::session_model::{
    dispatch, fail_all, fail_terminal, failure, failures, fault, find, first_unsent, held_bytes,
    index_of, initial, no_requests, sent_count, set_state, stepped, stop, take_in, usable,
    written, ConfigView, EffectView, Event, InputView, MachineView, PendingView, SessionError,
    State, Trace,
};
use super::session_writes::{closes, grounded, lemma_next_holds_write};
use vstd::prelude::*;

verus! {

/// A new session after inputs, and all the effects that it has asked for.
pub open spec fn run(config: ConfigView, inputs: Seq<InputView>) -> Trace
    decreases inputs.len(),
{
    if inputs.len() == 0 {
        Trace { m: initial(config), out: Seq::empty() }
    } else {
        resumed(run(config, inputs.drop_last()), inputs.last())
    }
}

/// A run that takes one more input.
pub open spec fn resumed(t: Trace, input: InputView) -> Trace {
    let s = stepped(t.m, input);
    Trace { m: s.m, out: t.out + s.out }
}

/// The effects of the input at `i`.
pub open spec fn effects_at(config: ConfigView, inputs: Seq<InputView>, i: int) -> Seq<EffectView> {
    stepped(run(config, inputs.take(i)).m, inputs[i]).out
}

pub proof fn lemma_run_step(config: ConfigView, inputs: Seq<InputView>, i: int)
    requires
        0 <= i < inputs.len(),
    ensures
        run(config, inputs.take(i + 1)) == resumed(run(config, inputs.take(i)), inputs[i]),
{
    assert(inputs.take(i + 1).drop_last() =~= inputs.take(i));
}

pub proof fn lemma_run_balanced(config: ConfigView, inputs: Seq<InputView>)
    ensures
        balanced(run(config, inputs).m.book),
        same_limits(config, run(config, inputs).m.config),
        within(run(config, inputs).m),
    decreases inputs.len(),
{
    lemma_tidy_empty();
    if inputs.len() > 0 {
        lemma_run_balanced(config, inputs.drop_last());
        law_step_keeps_the_books(run(config, inputs.drop_last()).m, inputs.last());
    }
}

// ---------------------------------------------------------------------------
// Accounts
// ---------------------------------------------------------------------------

/// The bytes of the messages of requests, with their headers.
pub open spec fn message_bytes(pending: Seq<PendingView>) -> nat
    decreases pending.len(),
{
    if pending.len() == 0 {
        0
    } else {
        message_bytes(pending.drop_last()) + weight(pending.last().message)
    }
}

proof fn lemma_message_bytes(pending: Seq<PendingView>)
    requires
        forall|i: int|
            0 <= i < pending.len() ==> (#[trigger] pending[i]).bytes == weight(pending[i].message),
    ensures
        held_bytes(pending) == message_bytes(pending),
    decreases pending.len(),
{
    if pending.len() > 0 {
        let shorter = pending.drop_last();
        assert forall|i: int| 0 <= i < shorter.len() implies (#[trigger] shorter[i]).bytes == weight(
            shorter[i].message,
        ) by {
            assert(shorter[i] == pending[i]);
        }
        lemma_message_bytes(shorter);
        assert(pending[pending.len() - 1] == pending.last());
    }
}

proof fn lemma_replay_is_pending(m: MachineView)
    requires
        balanced(m.book),
    ensures
        m.book.replay.len() <= m.book.pending.len(),
{
    reveal(tidy);
    let replay = m.book.replay;
    let pending = m.book.pending;
    let ids = Seq::new(pending.len(), |i: int| pending[i].request_id);
    assert(replay.to_set().subset_of(ids.to_set())) by {
        assert forall|id: u64| replay.to_set().contains(id) implies ids.to_set().contains(id) by {
            let k = choose|k: int| 0 <= k < replay.len() && replay[k] == id;
            assert(numbered(pending, replay[k]));
            super::session_laws::lemma_index_of(pending, id);
            let i = index_of(pending, id)->Some_0;
            assert(ids[i] == id);
        }
    }
    replay.unique_seq_to_set();
    ids.lemma_cardinality_of_set();
    vstd::seq_lib::seq_to_set_is_finite(ids);
    vstd::set_lib::lemma_len_subset(replay.to_set(), ids.to_set());
}

/// Whatever a session takes, its requests, those on the way and the bytes that they hold stay within
/// the limits that it was made with. The bytes are those of the messages with their headers, and only
/// requests that wait are to be sent again, each once.
pub proof fn law_run_keeps_its_accounts(config: ConfigView, inputs: Seq<InputView>)
    requires
        usable(config),
    ensures
        ({
            let book = run(config, inputs).m.book;
            &&& book.pending.len() <= config.max_queued_messages
            &&& sent_count(book.pending) <= config.max_in_flight_transactions
            &&& book.retained_bytes <= config.max_retained_bytes
            &&& book.retained_bytes == message_bytes(book.pending)
            &&& book.replay.len() <= book.pending.len()
            &&& forall|k: int|
                0 <= k < book.replay.len() ==> waits(book, #[trigger] book.replay[k])
        }),
{
    let m = run(config, inputs).m;
    lemma_run_balanced(config, inputs);
    lemma_replay_is_pending(m);
    assert(held_bytes(m.book.pending) == message_bytes(m.book.pending)) by {
        reveal(tidy);
        lemma_message_bytes(m.book.pending);
    }
    assert forall|k: int| 0 <= k < m.book.replay.len() implies waits(
        m.book,
        #[trigger] m.book.replay[k],
    ) by {
        assert(numbered(m.book.pending, m.book.replay[k]));
    }
}

// ---------------------------------------------------------------------------
// The life of a request
// ---------------------------------------------------------------------------

/// One of the effects before `to` sends a request.
pub open spec fn sent_before(out: Seq<EffectView>, to: int, id: u64) -> bool {
    exists|j: int| 0 <= j < to && sends(#[trigger] out[j], id)
}

/// The effect at `k` ends a request that was accepted before `from`, and nothing else does. Where it
/// is a failure, it says that the outcome is unknown exactly if the request had been sent.
pub open spec fn ends_at(out: Seq<EffectView>, from: int, id: u64, k: int) -> bool {
    &&& from <= k < out.len()
    &&& ends(out[k], id)
    &&& only(out, from, id, k)
    &&& out[k] matches EffectView::Failed { error, .. } ==> (error == SessionError::OutcomeUnknown
        <==> sent_before(out, k, id))
}

/// A request that was accepted before `from` waits and has been told nothing, or has ended once.
pub open spec fn followed(t: Trace, from: int, id: u64) -> bool {
    &&& from <= t.out.len()
    &&& waits(t.m.book, id) ==> !ended(t.out, from, id) && find(
        t.m.book.pending,
        id,
    )->Some_0.may_have_executed == sent_out(t.out, 0, id)
    &&& !waits(t.m.book, id) ==> exists|k: int| #[trigger] ends_at(t.out, from, id, k)
}

proof fn lemma_joined(before: Seq<EffectView>, after: Seq<EffectView>, id: u64)
    ensures
        sent_out(before + after, 0, id) == (sent_out(before, 0, id) || sent_out(after, 0, id)),
        sent_before(before + after, before.len() as int, id) == sent_out(before, 0, id),
{
    let all = before + after;
    if sent_out(before, 0, id) {
        let k = choose|k: int| 0 <= k < before.len() && sends(#[trigger] before[k], id);
        assert(sends(all[k], id));
    }
    if sent_out(after, 0, id) {
        let k = choose|k: int| 0 <= k < after.len() && sends(#[trigger] after[k], id);
        assert(sends(all[before.len() + k], id));
    }
    if sent_out(all, 0, id) {
        let k = choose|k: int| 0 <= k < all.len() && sends(#[trigger] all[k], id);
        if k < before.len() {
            assert(sends(before[k], id));
        } else {
            assert(sends(after[k - before.len()], id));
        }
    }
    if sent_before(all, before.len() as int, id) {
        let k = choose|k: int| 0 <= k < before.len() && sends(#[trigger] all[k], id);
        assert(sends(before[k], id));
    }
}

proof fn lemma_followed_step(t: Trace, input: InputView, from: int, id: u64)
    requires
        balanced(t.m.book),
        followed(t, from, id),
        from >= 0,
        !submits(input, id),
    ensures
        followed(resumed(t, input), from, id),
{
    let a = Trace { m: t.m, out: Seq::<EffectView>::empty() };
    let s = stepped(t.m, input);
    let r = resumed(t, input);
    let n = t.out.len() as int;
    lemma_next(a, input);
    assert(acts(a, s, id) && tracks(a, s, id));
    lemma_joined(t.out, s.out, id);
    if waits(t.m.book, id) {
        assert forall|k: int| from <= k < n implies !ends(#[trigger] r.out[k], id) by {
            assert(r.out[k] == t.out[k]);
            assert(!ends(t.out[k], id));
        }
        if waits(s.m.book, id) {
            assert forall|k: int| from <= k < r.out.len() implies !ends(#[trigger] r.out[k], id) by {
                if k >= n {
                    assert(r.out[k] == s.out[k - n]);
                    assert(!ends(s.out[k - n], id));
                }
            }
        } else {
            let may = find(t.m.book.pending, id)->Some_0.may_have_executed;
            assert(settled(s.out, 0, id, may));
            let k = choose|k: int|
                0 <= k < s.out.len() && ends(#[trigger] s.out[k], id) && only(s.out, 0, id, k)
                    && honest(s.out[k], may);
            assert(r.out[n + k] == s.out[k]);
            assert(only(r.out, from, id, n + k)) by {
                assert forall|j: int| from <= j < r.out.len() && ends(#[trigger] r.out[j], id)
                    implies j == n + k by {
                    if j >= n {
                        assert(r.out[j] == s.out[j - n]);
                        assert(ends(s.out[j - n], id));
                    }
                }
            }
            assert(sent_before(r.out, n + k, id) == sent_out(t.out, 0, id)) by {
                if sent_before(r.out, n + k, id) {
                    let j = choose|j: int| 0 <= j < n + k && sends(#[trigger] r.out[j], id);
                    if j >= n {
                        assert(sends(s.out[j - n], id));
                    } else {
                        assert(sends(t.out[j], id));
                    }
                }
                if sent_out(t.out, 0, id) {
                    let j = choose|j: int| 0 <= j < n && sends(#[trigger] t.out[j], id);
                    assert(sends(r.out[j], id));
                }
            }
            assert(ends_at(r.out, from, id, n + k));
        }
    } else {
        let k = choose|k: int| #[trigger] ends_at(t.out, from, id, k);
        assert(r.out[k] == t.out[k]);
        assert(only(r.out, from, id, k)) by {
            assert forall|j: int| from <= j < r.out.len() && ends(#[trigger] r.out[j], id) implies j
                == k by {
                if j >= n {
                    assert(r.out[j] == s.out[j - n]);
                    assert(!ends(s.out[j - n], id));
                } else {
                    assert(r.out[j] == t.out[j]);
                    assert(ends(t.out[j], id));
                }
            }
        }
        assert(sent_before(r.out, k, id) == sent_before(t.out, k, id)) by {
            if sent_before(r.out, k, id) {
                let j = choose|j: int| 0 <= j < k && sends(#[trigger] r.out[j], id);
                assert(sends(t.out[j], id));
            }
            if sent_before(t.out, k, id) {
                let j = choose|j: int| 0 <= j < k && sends(#[trigger] t.out[j], id);
                assert(sends(r.out[j], id));
            }
        }
        assert(ends_at(r.out, from, id, k));
    }
}

proof fn lemma_not_submitted(config: ConfigView, inputs: Seq<InputView>, id: u64)
    requires
        forall|k: int| 0 <= k < inputs.len() ==> !submits(#[trigger] inputs[k], id),
    ensures
        !waits(run(config, inputs).m.book, id),
        !sent_out(run(config, inputs).out, 0, id),
    decreases inputs.len(),
{
    if inputs.len() > 0 {
        let shorter = inputs.drop_last();
        assert forall|k: int| 0 <= k < shorter.len() implies !submits(#[trigger] shorter[k], id) by {
            assert(shorter[k] == inputs[k]);
        }
        lemma_not_submitted(config, shorter, id);
        lemma_run_balanced(config, shorter);
        let t = run(config, shorter);
        let a = Trace { m: t.m, out: Seq::<EffectView>::empty() };
        let s = stepped(t.m, inputs.last());
        assert(!submits(inputs[inputs.len() - 1], id));
        lemma_next(a, inputs.last());
        assert(acts(a, s, id) && tracks(a, s, id));
        lemma_joined(t.out, s.out, id);
    }
}

proof fn lemma_followed(config: ConfigView, inputs: Seq<InputView>, at: int, id: u64, n: int)
    requires
        0 <= at < n <= inputs.len(),
        submits(inputs[at], id),
        forall|k: int| 0 <= k < inputs.len() && k != at ==> !submits(#[trigger] inputs[k], id),
        admitted(effects_at(config, inputs, at), 0, id),
    ensures
        followed(
            run(config, inputs.take(n)),
            run(config, inputs.take(at + 1)).out.len() as int,
            id,
        ),
    decreases n,
{
    let from = run(config, inputs.take(at + 1)).out.len() as int;
    let before = inputs.take(n - 1);
    lemma_run_step(config, inputs, n - 1);
    lemma_run_balanced(config, before);
    if n == at + 1 {
        let t = run(config, before);
        let a = Trace { m: t.m, out: Seq::<EffectView>::empty() };
        let s = stepped(t.m, inputs[at]);
        assert forall|k: int| 0 <= k < before.len() implies !submits(#[trigger] before[k], id) by {
            assert(before[k] == inputs[k]);
        }
        lemma_not_submitted(config, before, id);
        lemma_next(a, inputs[at]);
        assert(joins(a, s, id) && tracks(a, s, id));
        lemma_joined(t.out, s.out, id);
    } else {
        lemma_followed(config, inputs, at, id, n - 1);
        assert(!submits(inputs[n - 1], id));
        lemma_followed_step(run(config, before), inputs[n - 1], from, id);
    }
}

/// A request whose id comes in once, and that was accepted, ends at most once, whatever the session
/// takes from then on: exactly once, or it still waits. Where it fails, its submitter is told that the
/// outcome is unknown exactly if the request had been sent before.
pub proof fn law_accepted_request_ends_at_most_once(
    config: ConfigView,
    inputs: Seq<InputView>,
    at: int,
    id: u64,
)
    requires
        0 <= at < inputs.len(),
        submits(inputs[at], id),
        forall|k: int| 0 <= k < inputs.len() && k != at ==> !submits(#[trigger] inputs[k], id),
        admitted(effects_at(config, inputs, at), 0, id),
    ensures
        ({
            let t = run(config, inputs);
            let from = run(config, inputs.take(at + 1)).out.len() as int;
            &&& waits(t.m.book, id) ==> !ended(t.out, from, id)
            &&& !waits(t.m.book, id) ==> exists|k: int| #[trigger] ends_at(t.out, from, id, k)
        }),
{
    assert(inputs.take(inputs.len() as int) =~= inputs);
    lemma_followed(config, inputs, at, id, inputs.len() as int);
}

// ---------------------------------------------------------------------------
// One write at a time
// ---------------------------------------------------------------------------

/// One of the effects writes to the transport.
pub open spec fn any_write(out: Seq<EffectView>) -> bool {
    exists|k: int| 0 <= k < out.len() && writes(#[trigger] out[k])
}

/// Whether an input ends the write that is under way: it was completed on the present connection, or
/// the transport of that connection is closed.
pub open spec fn releases(m: MachineView, input: InputView) -> bool {
    ||| input matches InputView::WriteComplete { generation, .. } && generation == m.generation
    ||| closes(stepped(m, input).out, 0, m.generation)
}

/// A disconnected session has no write under way, and only a disconnected one waits for a
/// connection.
pub proof fn law_disconnected_writes_nothing(config: ConfigView, inputs: Seq<InputView>)
    ensures
        grounded(run(config, inputs).m),
    decreases inputs.len(),
{
    if inputs.len() > 0 {
        let m = run(config, inputs.drop_last()).m;
        law_disconnected_writes_nothing(config, inputs.drop_last());
        lemma_next_holds_write(Trace { m, out: Seq::<EffectView>::empty() }, inputs.last());
    }
}

/// What is written: the control payload that waits longest, else, if the session is ready, the
/// request that came first of those that are not on the way.
pub open spec fn writes_next(m: MachineView, effect: EffectView) -> bool {
    match effect {
        EffectView::SendControl { generation, control } => generation == m.generation
            && m.controls.len() > 0 && control == m.controls[0],
        EffectView::SendMessage { generation, request_id, .. } => generation == m.generation
            && m.state == State::Ready && m.controls.len() == 0 && (first_unsent(
            m.book.pending,
        ) matches Some(i) && m.book.pending[i].request_id == request_id && !m.book.pending[i].sent),
        _ => false,
    }
}

/// Only a dispatch writes, and it writes one thing, where no write is under way. From then on one is,
/// on the same connection, until it is completed or the transport of that connection is closed.
pub proof fn law_dispatch_writes_one_thing(m: MachineView, input: InputView)
    requires
        balanced(m.book),
        grounded(m),
    ensures
        any_write(stepped(m, input).out) ==> {
            &&& input is Dispatch
            &&& !m.write_busy
            &&& stepped(m, input).m.write_busy
            &&& stepped(m, input).m.generation == m.generation
            &&& stepped(m, input).out.len() == 1
            &&& writes_next(m, stepped(m, input).out[0])
        },
        m.write_busy && !releases(m, input) ==> stepped(m, input).m.write_busy && stepped(
            m,
            input,
        ).m.generation == m.generation,
        !m.write_busy && stepped(m, input).m.write_busy ==> any_write(stepped(m, input).out),
{
    let a = Trace { m, out: Seq::<EffectView>::empty() };
    let s = stepped(m, input);
    lemma_next(a, input);
    lemma_next_holds_write(a, input);
    match input {
        InputView::Dispatch => {
            lemma_dispatch_writes(m);
        },
        InputView::WriteComplete { generation, .. } => {
            assert(!any_write(s.out)) by {
                assert(unwritten(s.out, 0));
            }
            if generation != m.generation {
                reveal(written);
            }
        },
        _ => {
            assert(steady(a, s));
            assert(!any_write(s.out)) by {
                assert(unwritten(s.out, 0));
            }
            assert(calm(a, s));
        },
    }
}

proof fn lemma_dispatch_writes(m: MachineView)
    requires
        balanced(m.book),
    ensures
        ({
            let s = stepped(m, InputView::Dispatch);
            &&& any_write(s.out) ==> !m.write_busy && s.m.write_busy && s.m.generation
                == m.generation && s.out.len() == 1 && writes_next(m, s.out[0])
            &&& m.write_busy ==> s.m.write_busy
            &&& !m.write_busy && s.m.write_busy ==> any_write(s.out)
        }),
{
    let a = Trace { m, out: Seq::<EffectView>::empty() };
    let s = stepped(m, InputView::Dispatch);
    reveal(dispatch);
    lemma_first_unsent(m.book.pending);
    let draining = Trace {
        m: MachineView { renewal: super::session_model::RenewalState::Reconnecting, ..m },
        ..a
    };
    super::session_laws::lemma_fault(draining, SessionError::Renewal);
    super::session_laws::lemma_follows_tracks(draining, fault(draining, SessionError::Renewal));
    super::session_laws::lemma_fail_terminal(a, SessionError::TransitionLimit);
    super::session_laws::lemma_follows_tracks(a, fail_terminal(a, SessionError::TransitionLimit));
    if s.m.write_busy && !m.write_busy {
        assert(s.out.len() == 1);
        assert(writes(s.out[0]));
    }
    if any_write(s.out) {
        let k = choose|k: int| 0 <= k < s.out.len() && writes(#[trigger] s.out[k]);
        assert(writes(s.out[k]));
    }
}

proof fn lemma_busy_until(config: ConfigView, inputs: Seq<InputView>, i: int, j: int)
    requires
        0 <= i < j <= inputs.len(),
        any_write(effects_at(config, inputs, i)),
        forall|c: int|
            i < c < j ==> !(run(config, inputs.take(c)).m.generation == run(
                config,
                inputs.take(i),
            ).m.generation && releases(run(config, inputs.take(c)).m, #[trigger] inputs[c])),
    ensures
        run(config, inputs.take(j)).m.write_busy,
        run(config, inputs.take(j)).m.generation == run(config, inputs.take(i)).m.generation,
    decreases j,
{
    let m = run(config, inputs.take(j - 1)).m;
    lemma_run_balanced(config, inputs.take(j - 1));
    law_disconnected_writes_nothing(config, inputs.take(j - 1));
    lemma_run_step(config, inputs, j - 1);
    law_dispatch_writes_one_thing(m, inputs[j - 1]);
    if i < j - 1 {
        lemma_busy_until(config, inputs, i, j - 1);
        assert(!releases(m, inputs[j - 1]));
    }
}

/// Between two writes the first was completed on its connection, or the transport of that connection
/// was closed.
pub proof fn law_one_write_at_a_time(
    config: ConfigView,
    inputs: Seq<InputView>,
    i: int,
    j: int,
)
    requires
        0 <= i < j < inputs.len(),
        any_write(effects_at(config, inputs, i)),
        any_write(effects_at(config, inputs, j)),
    ensures
        exists|c: int|
            i < c < j && run(config, inputs.take(c)).m.generation == run(
                config,
                inputs.take(i),
            ).m.generation && releases(run(config, inputs.take(c)).m, #[trigger] inputs[c]),
{
    if !(exists|c: int|
        i < c < j && run(config, inputs.take(c)).m.generation == run(
            config,
            inputs.take(i),
        ).m.generation && releases(run(config, inputs.take(c)).m, #[trigger] inputs[c])) {
        lemma_busy_until(config, inputs, i, j);
        lemma_run_balanced(config, inputs.take(j));
        law_disconnected_writes_nothing(config, inputs.take(j));
        law_dispatch_writes_one_thing(run(config, inputs.take(j)).m, inputs[j]);
    }
}

// ---------------------------------------------------------------------------
// The end
// ---------------------------------------------------------------------------

/// Stopping a session fails each of its requests once, as unknown where it was sent and as closed
/// where it was not, closes the transport, and leaves nothing that waits.
pub proof fn law_stop_ends_everything(m: MachineView)
    requires
        m.state != State::Stopped,
    ensures
        stepped(m, InputView::Stop) == (Trace {
            m: MachineView {
                state: State::Stopped,
                book: no_requests(),
                connect_pending: false,
                ..m
            },
            out: seq![EffectView::Event(Event::StateChanged(State::Stopped))] + failures(
                m.book.pending,
                SessionError::Closed,
            ) + seq![EffectView::CloseTransport { generation: m.generation }],
        }),
        forall|i: int|
            0 <= i < m.book.pending.len() ==> #[trigger] failures(
                m.book.pending,
                SessionError::Closed,
            )[i] == failure(m.book.pending[i], SessionError::Closed),
        sent_count(no_requests().pending) == 0,
{
    reveal(stop);
    reveal(set_state);
    reveal(fail_all);
    let want = seq![EffectView::Event(Event::StateChanged(State::Stopped))] + failures(
        m.book.pending,
        SessionError::Closed,
    ) + seq![EffectView::CloseTransport { generation: m.generation }];
    assert(stepped(m, InputView::Stop).out =~= want);
}

/// A session that was stopped stays as it is when it is stopped again, and refuses every request as
/// closed.
pub proof fn law_stopped_session_refuses_requests(
    m: MachineView,
    request_id: u64,
    message: MessageView,
    one_way: bool,
)
    requires
        m.state == State::Stopped,
        m.terminal_error is None,
    ensures
        stepped(m, InputView::Stop) == (Trace { m, out: Seq::empty() }),
        stepped(m, InputView::Admit { request_id, message, one_way }) == (Trace {
            m,
            out: seq![EffectView::Failed { request_id, error: SessionError::Closed }],
        }),
{
    reveal(stop);
    reveal(take_in);
    assert(stepped(m, InputView::Admit { request_id, message, one_way }).out =~= seq![
        EffectView::Failed { request_id, error: SessionError::Closed },
    ]);
}

} // verus!
