//! The order in which the targets of an SRV answer are tried: by priority, and within one priority
//! at random, with chances in proportion to the weights.

use crate::mon::seeds::{records_view, SeedError, SeedErrorView, SrvRecord, SrvRecordView};
use crate::random::random_below;
use vstd::prelude::*;
use vstd::seq_lib::{to_multiset_contains, to_multiset_insert, to_multiset_update};

verus! {

// ---------------------------------------------------------------------------
// Sorting
// ---------------------------------------------------------------------------

/// Whether a record does not come behind another by its priority and its weight.
pub open spec fn not_behind(a: SrvRecordView, b: SrvRecordView) -> bool {
    a.priority < b.priority || (a.priority == b.priority && a.weight <= b.weight)
}

/// A record put in front of the first that it does not come behind.
pub open spec fn placed(s: Seq<SrvRecordView>, record: SrvRecordView) -> Seq<SrvRecordView>
    decreases s.len(),
{
    if s.len() == 0 || not_behind(record, s[0]) {
        seq![record] + s
    } else {
        seq![s[0]] + placed(s.skip(1), record)
    }
}

/// Records by priority and weight, those with equal ones in the order that they had.
pub open spec fn arranged(s: Seq<SrvRecordView>) -> Seq<SrvRecordView>
    decreases s.len(),
{
    if s.len() == 0 {
        s
    } else {
        placed(arranged(s.skip(1)), s[0])
    }
}

proof fn lemma_placed(s: Seq<SrvRecordView>, record: SrvRecordView, at: int)
    requires
        0 <= at <= s.len(),
        forall|i: int| 0 <= i < at ==> !not_behind(record, #[trigger] s[i]),
        at < s.len() ==> not_behind(record, s[at]),
    ensures
        placed(s, record) == s.insert(at, record),
    decreases s.len(),
{
    if at == 0 {
        assert(seq![record] + s =~= s.insert(0, record));
    } else {
        let rest = s.skip(1);
        assert forall|i: int| 0 <= i < at - 1 implies !not_behind(record, #[trigger] rest[i]) by {
            assert(rest[i] == s[i + 1]);
        }
        lemma_placed(rest, record, at - 1);
        assert(!not_behind(record, s[0]));
        assert(seq![s[0]] + rest.insert(at - 1, record) =~= s.insert(at, record));
    }
}

proof fn lemma_place_of(s: Seq<SrvRecordView>, record: SrvRecordView) -> (at: int)
    ensures
        0 <= at <= s.len(),
        forall|i: int| 0 <= i < at ==> !not_behind(record, #[trigger] s[i]),
        at < s.len() ==> not_behind(record, s[at]),
        placed(s, record) == s.insert(at, record),
    decreases s.len(),
{
    if s.len() == 0 || not_behind(record, s[0]) {
        lemma_placed(s, record, 0);
        0
    } else {
        let rest = s.skip(1);
        let at = lemma_place_of(rest, record) + 1;
        assert forall|i: int| 0 <= i < at implies !not_behind(record, #[trigger] s[i]) by {
            if i > 0 {
                assert(rest[i - 1] == s[i]);
            }
        }
        lemma_placed(s, record, at);
        at
    }
}

/// Sorting keeps the records and puts none before one that it comes behind.
pub proof fn law_arranged_records_are_in_order(s: Seq<SrvRecordView>)
    ensures
        arranged(s).to_multiset() == s.to_multiset(),
        arranged(s).len() == s.len(),
        forall|i: int, j: int|
            0 <= i < j < s.len() ==> not_behind(
                #[trigger] arranged(s)[i],
                #[trigger] arranged(s)[j],
            ),
    decreases s.len(),
{
    if s.len() > 0 {
        let rest = arranged(s.skip(1));
        law_arranged_records_are_in_order(s.skip(1));
        let at = lemma_place_of(rest, s[0]);
        to_multiset_insert(rest, at, s[0]);
        to_multiset_insert(s.skip(1), 0, s[0]);
        assert(s.skip(1).insert(0, s[0]) =~= s);
        let all = arranged(s);
        assert forall|i: int, j: int| 0 <= i < j < s.len() implies not_behind(
            #[trigger] all[i],
            #[trigger] all[j],
        ) by {
            let (a, b) = (
                if i < at {
                    i
                } else {
                    i - 1
                },
                if j < at {
                    j
                } else {
                    j - 1
                },
            );
            if i == at {
                if b > at {
                    assert(not_behind(rest[at], rest[b]));
                }
            } else if j == at {
                assert(!not_behind(s[0], rest[a]));
            } else {
                assert(not_behind(rest[a], rest[b]));
            }
        }
    }
}

/// The records of one priority and weight.
pub open spec fn of_key(s: Seq<SrvRecordView>, priority: u16, weight: u16) -> Seq<SrvRecordView>
    decreases s.len(),
{
    if s.len() == 0 {
        s
    } else if s[0].priority == priority && s[0].weight == weight {
        seq![s[0]] + of_key(s.skip(1), priority, weight)
    } else {
        of_key(s.skip(1), priority, weight)
    }
}

proof fn lemma_placed_key(s: Seq<SrvRecordView>, record: SrvRecordView, priority: u16, weight: u16)
    ensures
        of_key(placed(s, record), priority, weight) == of_key(
            seq![record] + s,
            priority,
            weight,
        ),
    decreases s.len(),
{
    if s.len() == 0 || not_behind(record, s[0]) {
    } else {
        reveal_with_fuel(of_key, 3);
        let rest = s.skip(1);
        lemma_placed_key(rest, record, priority, weight);
        let all = placed(s, record);
        assert(all.skip(1) =~= placed(rest, record));
        assert((seq![record] + s).skip(1) =~= s);
        assert((seq![record] + rest).skip(1) =~= rest);
    }
}

/// Sorting leaves records of one priority and weight in the order that they had.
pub proof fn law_arranged_records_keep_their_order(
    s: Seq<SrvRecordView>,
    priority: u16,
    weight: u16,
)
    ensures
        of_key(arranged(s), priority, weight) == of_key(s, priority, weight),
    decreases s.len(),
{
    if s.len() > 0 {
        let rest = s.skip(1);
        law_arranged_records_keep_their_order(rest, priority, weight);
        lemma_placed_key(arranged(rest), s[0], priority, weight);
        assert((seq![s[0]] + arranged(rest)).skip(1) =~= arranged(rest));
    }
}

/// Sorts records by priority and weight.
fn sort_by_key(records: &mut Vec<SrvRecord>)
    ensures
        records_view(final(records)@) == arranged(records_view(old(records)@)),
{
    let ghost all = records_view(records@);
    let mut sorted: Vec<SrvRecord> = Vec::new();
    assert(records_view(sorted@) =~= arranged(all.skip(all.len() as int)));
    while records.len() > 0
        invariant
            records@.len() <= all.len(),
            records_view(records@) == all.take(records@.len() as int),
            records_view(sorted@) == arranged(all.skip(records@.len() as int)),
        decreases records@.len(),
    {
        let ghost more = records@;
        let record = records.pop().unwrap();
        let ghost count = records@.len() as int;
        proof {
            assert(records_view(more) == all.take(count + 1));
            assert(records_view(more)[count] == all[count]);
            assert(records_view(records@) =~= all.take(count)) by {
                assert forall|i: int| 0 <= i < count implies records_view(records@)[i]
                    == #[trigger] all.take(count)[i] by {
                    assert(records_view(more)[i] == all.take(count + 1)[i]);
                }
            }
        }
        let ghost held = records_view(sorted@);
        let mut at: usize = 0;
        while at < sorted.len() && !(record.priority < sorted[at].priority || (record.priority
            == sorted[at].priority && record.weight <= sorted[at].weight))
            invariant
                at <= sorted@.len(),
                held == records_view(sorted@),
                forall|i: int| 0 <= i < at ==> !not_behind(record@, #[trigger] held[i]),
            decreases sorted@.len() - at,
        {
            at = at + 1;
        }
        proof {
            lemma_placed(held, record@, at as int);
            assert(all.skip(count).skip(1) =~= all.skip(count + 1));
            assert(all.skip(count)[0] == record@);
        }
        sorted.insert(at, record);
        assert(records_view(sorted@) =~= held.insert(at as int, record@));
    }
    assert(all.skip(0) =~= all);
    *records = sorted;
}

// ---------------------------------------------------------------------------
// Drawing by weight
// ---------------------------------------------------------------------------

/// The weight of the records from `from` to `to`.
pub open spec fn weight_sum(s: Seq<SrvRecordView>, from: int, to: int) -> nat
    decreases to - from,
{
    if from >= to {
        0
    } else {
        s[from].weight as nat + weight_sum(s, from + 1, to)
    }
}

/// The first record from `at` to `to` at which the weights so far exceed `selected`.
pub open spec fn drawn_at(s: Seq<SrvRecordView>, at: int, to: int, selected: nat) -> Option<int>
    decreases to - at,
{
    if at >= to {
        None
    } else if selected < s[at].weight {
        Some(at)
    } else {
        drawn_at(s, at + 1, to, (selected - s[at].weight) as nat)
    }
}

/// The record that a number below the sum of the weights stands for.
pub open spec fn drawn_record(s: Seq<SrvRecordView>, from: int, to: int, selected: nat) -> int {
    match drawn_at(s, from, to, selected) {
        Some(at) => at,
        None => from,
    }
}

/// Records with two of them exchanged.
pub open spec fn exchanged(s: Seq<SrvRecordView>, i: int, j: int) -> Seq<SrvRecordView> {
    s.update(i, s[j]).update(j, s[i])
}

proof fn lemma_exchanged(s: Seq<SrvRecordView>, i: int, j: int)
    requires
        0 <= i < s.len(),
        0 <= j < s.len(),
    ensures
        exchanged(s, i, j).to_multiset() == s.to_multiset(),
{
    to_multiset_update(s, i, s[j]);
    to_multiset_update(s.update(i, s[j]), j, s[i]);
    to_multiset_contains(s, s[i]);
    let m = s.to_multiset();
    if i == j {
        assert(s.update(i, s[j]) =~= s);
        assert(exchanged(s, i, j) =~= s);
    } else {
        assert(m.insert(s[j]).remove(s[i]).insert(s[i]).remove(s[j]) =~= m) by {
            assert(m.count(s[i]) > 0);
        }
    }
}

proof fn lemma_weight_bound(s: Seq<SrvRecordView>, from: int, to: int)
    requires
        0 <= from <= to <= s.len(),
    ensures
        weight_sum(s, from, to) <= (to - from) * 0xffff,
    decreases to - from,
{
    if from < to {
        lemma_weight_bound(s, from + 1, to);
    }
}

proof fn lemma_weight_append(s: Seq<SrvRecordView>, from: int, to: int)
    requires
        0 <= from <= to < s.len(),
    ensures
        weight_sum(s, from, to + 1) == weight_sum(s, from, to) + s[to].weight,
    decreases to - from,
{
    reveal_with_fuel(weight_sum, 2);
    if from < to {
        lemma_weight_append(s, from + 1, to);
    }
}

proof fn lemma_weight_same(s: Seq<SrvRecordView>, t: Seq<SrvRecordView>, from: int, to: int)
    requires
        forall|i: int| from <= i < to ==> s[i].weight == #[trigger] t[i].weight,
    ensures
        weight_sum(s, from, to) == weight_sum(t, from, to),
    decreases to - from,
{
    if from < to {
        lemma_weight_same(s, t, from + 1, to);
    }
}

/// Exchanging the first record with another leaves the weight of the rest.
proof fn lemma_weight_exchanged(s: Seq<SrvRecordView>, from: int, at: int, to: int)
    requires
        0 <= from <= at < to <= s.len(),
    ensures
        weight_sum(exchanged(s, from, at), from + 1, to) + s[at].weight == weight_sum(s, from, to),
{
    let t = exchanged(s, from, at);
    if at == from {
        assert(t =~= s);
    } else {
        lemma_weight_split(s, from + 1, at, to);
        lemma_weight_split(t, from + 1, at, to);
        lemma_weight_same(s, t, from + 1, at);
        lemma_weight_same(s, t, at + 1, to);
    }
}

proof fn lemma_weight_split(s: Seq<SrvRecordView>, from: int, at: int, to: int)
    requires
        0 <= from <= at < to <= s.len(),
    ensures
        weight_sum(s, from, to) == weight_sum(s, from, at) + s[at].weight + weight_sum(
            s,
            at + 1,
            to,
        ),
    decreases at - from,
{
    if from < at {
        lemma_weight_split(s, from + 1, at, to);
    }
}

/// A number below the sum of the weights stands for a record that has a weight.
pub proof fn law_draw_finds_a_record(s: Seq<SrvRecordView>, from: int, to: int, selected: nat)
    requires
        0 <= from <= to <= s.len(),
        selected < weight_sum(s, from, to),
    ensures
        drawn_at(s, from, to, selected) matches Some(at) && from <= at < to && s[at].weight > 0,
    decreases to - from,
{
    if from < to && selected >= s[from].weight {
        law_draw_finds_a_record(s, from + 1, to, (selected - s[from].weight) as nat);
    }
}

/// A record is drawn by as many numbers as its weight says: those from the sum of the weights
/// before it.
pub proof fn law_draws_follow_the_weights(
    s: Seq<SrvRecordView>,
    from: int,
    at: int,
    to: int,
    selected: nat,
)
    requires
        0 <= from <= at < to <= s.len(),
    ensures
        drawn_at(s, from, to, selected) == Some(at) <==> weight_sum(s, from, at) <= selected
            < weight_sum(s, from, at) + s[at].weight,
    decreases at - from,
{
    if from < at {
        if selected >= s[from].weight {
            law_draws_follow_the_weights(s, from + 1, at, to, (selected - s[from].weight) as nat);
        }
    } else {
        lemma_drawn_range(s, from + 1, to, (selected - s[from].weight) as nat);
    }
}

proof fn lemma_drawn_range(s: Seq<SrvRecordView>, from: int, to: int, selected: nat)
    ensures
        drawn_at(s, from, to, selected) matches Some(at) ==> from <= at < to,
    decreases to - from,
{
    if from < to && selected >= s[from].weight {
        lemma_drawn_range(s, from + 1, to, (selected - s[from].weight) as nat);
    }
}

/// Brings the record that `selected` stands for to the front of those from `from` to `to`.
pub fn place_drawn(records: &mut Vec<SrvRecord>, from: usize, to: usize, selected: u64)
    requires
        from < to <= old(records)@.len(),
    ensures
        records_view(final(records)@) == exchanged(
            records_view(old(records)@),
            from as int,
            drawn_record(records_view(old(records)@), from as int, to as int, selected as nat),
        ),
{
    let ghost s = records_view(records@);
    let mut at: usize = from;
    let mut left: u64 = selected;
    while at < to && left >= records[at].weight as u64
        invariant
            from <= at <= to <= records@.len(),
            s == records_view(records@),
            records@ == old(records)@,
            drawn_at(s, from as int, to as int, selected as nat) == drawn_at(
                s,
                at as int,
                to as int,
                left as nat,
            ),
        decreases to - at,
    {
        left = left - records[at].weight as u64;
        at = at + 1;
    }
    if at >= to {
        at = from;
    }
    let first = records[from].clone();
    let drawn = records[at].clone();
    records[from] = drawn;
    records[at] = first;
    assert(records_view(records@) =~= exchanged(s, from as int, at as int));
}

/// The error where no random number can be had.
pub open spec fn no_random() -> SeedErrorView {
    SeedErrorView::Lookup {
        operation: "SRV ordering",
        name: "system random source"@,
        source: "random source unavailable"@,
    }
}

/// Records after draws: each draw brings the record that it stands for to the front of those that
/// are left.
pub open spec fn shuffled(part: Seq<SrvRecordView>, draws: Seq<u64>) -> Seq<SrvRecordView>
    decreases draws.len(),
{
    if draws.len() == 0 {
        part
    } else {
        let before = shuffled(part, draws.drop_last());
        let at = draws.len() - 1;
        exchanged(
            before,
            at,
            drawn_record(before, at, part.len() as int, draws.last() as nat),
        )
    }
}

/// Whether there is nothing left to draw behind the first `count` records: at most one record, or
/// no weight.
pub open spec fn drawn_out(part: Seq<SrvRecordView>, count: int) -> bool {
    part.len() - count <= 1 || weight_sum(part, count, part.len() as int) == 0
}

/// Whether every draw was wanted when it was made.
pub open spec fn wanted(part: Seq<SrvRecordView>, draws: Seq<u64>) -> bool {
    forall|k: int|
        0 <= k < draws.len() ==> !drawn_out(#[trigger] shuffled(part, draws.take(k)), k)
}

/// Whether every draw was wanted, and was of a number below the weight that was left.
pub open spec fn fair(part: Seq<SrvRecordView>, draws: Seq<u64>) -> bool {
    forall|k: int|
        0 <= k < draws.len() ==> !drawn_out(#[trigger] shuffled(part, draws.take(k)), k)
            && draws[k] < weight_sum(shuffled(part, draws.take(k)), k, part.len() as int)
}

/// Records in an order that draws lead to.
pub open spec fn drawn_order(after: Seq<SrvRecordView>, part: Seq<SrvRecordView>) -> bool {
    exists|draws: Seq<u64>| #[trigger]
        fair(part, draws) && after == shuffled(part, draws) && drawn_out(
            after,
            draws.len() as int,
        )
}

/// Records of which those from `from` to `to` are others.
pub open spec fn replaced(
    s: Seq<SrvRecordView>,
    from: int,
    to: int,
    part: Seq<SrvRecordView>,
) -> Seq<SrvRecordView> {
    s.take(from) + part + s.skip(to)
}

proof fn lemma_shuffled_len(part: Seq<SrvRecordView>, draws: Seq<u64>)
    requires
        draws.len() <= part.len(),
    ensures
        shuffled(part, draws).len() == part.len(),
    decreases draws.len(),
{
    if draws.len() > 0 {
        let before = shuffled(part, draws.drop_last());
        lemma_shuffled_len(part, draws.drop_last());
        lemma_drawn_range(before, draws.len() - 1, part.len() as int, draws.last() as nat);
    }
}

/// One more draw.
proof fn lemma_draw(part: Seq<SrvRecordView>, draws: Seq<u64>, selected: u64)
    requires
        wanted(part, draws),
        !drawn_out(shuffled(part, draws), draws.len() as int),
    ensures
        wanted(part, draws.push(selected)),
        fair(part, draws) && selected < weight_sum(
            shuffled(part, draws),
            draws.len() as int,
            part.len() as int,
        ) ==> fair(part, draws.push(selected)),
        shuffled(part, draws.push(selected)) == exchanged(
            shuffled(part, draws),
            draws.len() as int,
            drawn_record(
                shuffled(part, draws),
                draws.len() as int,
                part.len() as int,
                selected as nat,
            ),
        ),
{
    let more = draws.push(selected);
    assert(more.drop_last() =~= draws);
    assert forall|k: int| 0 <= k < more.len() implies #[trigger] shuffled(part, more.take(k))
        == shuffled(part, draws.take(k)) by {
        assert(more.take(k) =~= draws.take(k));
    }
    assert(draws.take(draws.len() as int) =~= draws);
}

/// The records that were drawn have a weight and stand in front, and no record is lost.
proof fn lemma_shuffled(part: Seq<SrvRecordView>, draws: Seq<u64>)
    requires
        fair(part, draws),
    ensures
        shuffled(part, draws).len() == part.len(),
        shuffled(part, draws).to_multiset() == part.to_multiset(),
        draws.len() > 0 ==> draws.len() < part.len(),
        forall|k: int|
            0 <= k < draws.len() ==> (#[trigger] shuffled(part, draws)[k]).weight > 0,
    decreases draws.len(),
{
    if draws.len() > 0 {
        let fewer = draws.drop_last();
        let n = part.len() as int;
        let k = fewer.len() as int;
        assert forall|i: int| 0 <= i < fewer.len() implies !drawn_out(
            #[trigger] shuffled(part, fewer.take(i)),
            i,
        ) && fewer[i] < weight_sum(shuffled(part, fewer.take(i)), i, n) by {
            assert(fewer.take(i) =~= draws.take(i));
            assert(shuffled(part, draws.take(i)) == shuffled(part, fewer.take(i)));
        }
        lemma_shuffled(part, fewer);
        let before = shuffled(part, fewer);
        assert(draws.take(k) =~= fewer);
        assert(!drawn_out(shuffled(part, draws.take(k)), k));
        law_draw_finds_a_record(before, k, n, draws.last() as nat);
        let at = drawn_record(before, k, n, draws.last() as nat);
        lemma_exchanged(before, k, at);
    }
}

/// Weights and draws in a part of records are those of the part.
proof fn lemma_part(s: Seq<SrvRecordView>, from: int, to: int, k: int, selected: nat)
    requires
        0 <= from <= to <= s.len(),
        0 <= k <= to - from,
    ensures
        weight_sum(s, from + k, to) == weight_sum(s.subrange(from, to), k, to - from),
        drawn_record(s, from + k, to, selected) == from + drawn_record(
            s.subrange(from, to),
            k,
            to - from,
            selected,
        ),
        drawn_at(s, from + k, to, selected) == match drawn_at(
            s.subrange(from, to),
            k,
            to - from,
            selected,
        ) {
            Some(at) => Some(from + at),
            None => None,
        },
    decreases to - from - k,
{
    if k < to - from {
        let left = if selected < s[from + k].weight {
            0
        } else {
            (selected - s[from + k].weight) as nat
        };
        lemma_part(s, from, to, k + 1, left);
    }
}

/// Bringing a record to the front of a part brings it there in all records.
proof fn lemma_replaced(
    s: Seq<SrvRecordView>,
    from: int,
    to: int,
    part: Seq<SrvRecordView>,
    k: int,
    selected: nat,
)
    requires
        0 <= from <= to <= s.len(),
        part.len() == to - from,
        0 <= k < to - from,
    ensures
        ({
            let all = replaced(s, from, to, part);
            let next = exchanged(part, k, drawn_record(part, k, to - from, selected));
            &&& all.len() == s.len()
            &&& all.subrange(from, to) == part
            &&& weight_sum(all, from + k, to) == weight_sum(part, k, to - from)
            &&& from + k <= drawn_record(all, from + k, to, selected) < to
            &&& exchanged(all, from + k, drawn_record(all, from + k, to, selected)) == replaced(
                s,
                from,
                to,
                next,
            )
        }),
{
    let all = replaced(s, from, to, part);
    assert(all.subrange(from, to) =~= part);
    lemma_part(all, from, to, k, selected);
    lemma_drawn_range(part, k, to - from, selected);
    let at = drawn_record(part, k, to - from, selected);
    assert(exchanged(all, from + k, from + at) =~= replaced(s, from, to, exchanged(part, k, at)));
}

fn unavailable() -> (r: SeedError)
    ensures
        r@ == no_random(),
{
    SeedError::Lookup {
        operation: "SRV ordering",
        name: "system random source".to_owned(),
        source: "random source unavailable".to_owned(),
    }
}

fn total_weight(records: &Vec<SrvRecord>, from: usize, to: usize) -> (r: u64)
    requires
        from <= to <= records@.len() <= u32::MAX,
    ensures
        r == weight_sum(records_view(records@), from as int, to as int),
{
    let ghost s = records_view(records@);
    let mut total: u64 = 0;
    let mut i: usize = from;
    while i < to
        invariant
            from <= i <= to <= records@.len() <= u32::MAX,
            s == records_view(records@),
            total == weight_sum(s, from as int, i as int),
        decreases to - i,
    {
        proof {
            lemma_weight_append(s, from as int, i as int);
            lemma_weight_bound(s, from as int, i + 1);
        }
        total = total + records[i].weight as u64;
        i = i + 1;
    }
    total
}

/// Brings the record that `selected` stands for to the front of those from `start` to `to`, and
/// gives the weight of the others.
fn take_drawn(
    records: &mut Vec<SrvRecord>,
    start: usize,
    to: usize,
    total: u64,
    selected: u64,
) -> (r: u64)
    requires
        start < to <= old(records)@.len(),
        total == weight_sum(records_view(old(records)@), start as int, to as int),
    ensures
        records_view(final(records)@) == exchanged(
            records_view(old(records)@),
            start as int,
            drawn_record(records_view(old(records)@), start as int, to as int, selected as nat),
        ),
        r == weight_sum(records_view(final(records)@), start + 1, to as int),
{
    let ghost s = records_view(records@);
    let ghost at = drawn_record(s, start as int, to as int, selected as nat);
    place_drawn(records, start, to, selected);
    proof {
        lemma_drawn_range(s, start as int, to as int, selected as nat);
        lemma_weight_exchanged(s, start as int, at, to as int);
        assert(records_view(records@).len() == s.len());
        assert(records_view(records@)[start as int] == s[at]);
    }
    total - records[start].weight as u64
}

/// Puts the records from `from` to `to` in the order that draws lead to, and says how many of them
/// it took. It fails where they are too few.
pub fn shuffle_by_draws(
    records: &mut Vec<SrvRecord>,
    from: usize,
    to: usize,
    draws: &Vec<u64>,
) -> (r: Result<usize, SeedError>)
    requires
        from <= to <= old(records)@.len() <= u32::MAX,
    ensures
        ({
            let before = records_view(old(records)@);
            let part = before.subrange(from as int, to as int);
            match r {
                Ok(count) => {
                    let taken = draws@.take(count as int);
                    &&& count <= draws@.len()
                    &&& wanted(part, taken)
                    &&& drawn_out(shuffled(part, taken), count as int)
                    &&& records_view(final(records)@) == replaced(
                        before,
                        from as int,
                        to as int,
                        shuffled(part, taken),
                    )
                },
                Err(error) => {
                    &&& error@ == no_random()
                    &&& wanted(part, draws@)
                    &&& !drawn_out(shuffled(part, draws@), draws@.len() as int)
                    &&& records_view(final(records)@) == replaced(
                        before,
                        from as int,
                        to as int,
                        shuffled(part, draws@),
                    )
                },
            }
        }),
{
    let ghost before = records_view(records@);
    let ghost part = before.subrange(from as int, to as int);
    let mut total: u64 = total_weight(records, from, to);
    let mut start: usize = from;
    let mut count: usize = 0;
    proof {
        assert(draws@.take(0) =~= Seq::<u64>::empty());
        assert(before =~= replaced(before, from as int, to as int, part));
        lemma_part(before, from as int, to as int, 0, 0);
    }
    while total > 0 && to - start > 1
        invariant
            from <= start <= to <= records@.len(),
            start - from == count <= draws@.len(),
            before == records_view(old(records)@),
            records@.len() == before.len(),
            part == before.subrange(from as int, to as int),
            wanted(part, draws@.take(count as int)),
            records_view(records@) == replaced(
                before,
                from as int,
                to as int,
                shuffled(part, draws@.take(count as int)),
            ),
            total == weight_sum(records_view(records@), start as int, to as int),
            total == weight_sum(
                shuffled(part, draws@.take(count as int)),
                count as int,
                part.len() as int,
            ),
        decreases to - start,
    {
        let ghost taken = draws@.take(count as int);
        proof {
            lemma_shuffled_len(part, taken);
        }
        if count == draws.len() {
            assert(taken =~= draws@);
            return Err(unavailable());
        }
        let selected: u64 = draws[count];
        proof {
            lemma_draw(part, taken, selected);
            lemma_replaced(
                before,
                from as int,
                to as int,
                shuffled(part, taken),
                count as int,
                selected as nat,
            );
            assert(draws@.take(count + 1) =~= taken.push(selected));
            lemma_shuffled_len(part, taken.push(selected));
        }
        total = take_drawn(records, start, to, total, selected);
        start = start + 1;
        count = count + 1;
        proof {
            let now = shuffled(part, draws@.take(count as int));
            assert(records_view(records@).subrange(from as int, to as int) =~= now);
            lemma_part(records_view(records@), from as int, to as int, count as int, 0);
        }
    }
    proof {
        lemma_shuffled_len(part, draws@.take(count as int));
    }
    Ok(count)
}

/// Puts the records from `from` to `to` in a random order, in which a record comes first with a
/// chance in proportion to its weight, and then the others in the same way. Where no random number
/// is left to be had, it stops with what was drawn so far.
pub fn shuffle_srv_weights(records: &mut Vec<SrvRecord>, from: usize, to: usize) -> (r: Result<
    (),
    SeedError,
>)
    requires
        from <= to <= old(records)@.len() <= u32::MAX,
    ensures
        ({
            let before = records_view(old(records)@);
            let part = before.subrange(from as int, to as int);
            exists|draws: Seq<u64>| #[trigger]
                fair(part, draws) && records_view(final(records)@) == replaced(
                    before,
                    from as int,
                    to as int,
                    shuffled(part, draws),
                ) && (r is Ok <==> drawn_out(shuffled(part, draws), draws.len() as int))
        }),
        drawn_out(records_view(old(records)@).subrange(from as int, to as int), 0) ==> r is Ok
            && records_view(final(records)@) == records_view(old(records)@),
        r matches Err(error) ==> error@ == no_random(),
{
    let ghost before = records_view(records@);
    let ghost part = before.subrange(from as int, to as int);
    let ghost mut draws: Seq<u64> = Seq::empty();
    let mut total: u64 = total_weight(records, from, to);
    let mut start: usize = from;
    proof {
        assert(before =~= replaced(before, from as int, to as int, part));
        lemma_part(before, from as int, to as int, 0, 0);
    }
    while total > 0 && to - start > 1
        invariant
            from <= start <= to <= records@.len(),
            start - from == draws.len(),
            before == records_view(old(records)@),
            records@.len() == before.len(),
            part == before.subrange(from as int, to as int),
            fair(part, draws),
            records_view(records@) == replaced(
                before,
                from as int,
                to as int,
                shuffled(part, draws),
            ),
            total == weight_sum(records_view(records@), start as int, to as int),
            total == weight_sum(shuffled(part, draws), draws.len() as int, part.len() as int),
            drawn_out(part, 0) ==> draws.len() == 0,
        decreases to - start,
    {
        proof {
            lemma_shuffled_len(part, draws);
        }
        let selected: u64 = match random_below(total) {
            Some(selected) => selected,
            None => {
                return Err(unavailable());
            },
        };
        proof {
            lemma_draw(part, draws, selected);
            lemma_replaced(
                before,
                from as int,
                to as int,
                shuffled(part, draws),
                draws.len() as int,
                selected as nat,
            );
            lemma_shuffled_len(part, draws.push(selected));
        }
        total = take_drawn(records, start, to, total, selected);
        start = start + 1;
        proof {
            draws = draws.push(selected);
            let now = shuffled(part, draws);
            assert(records_view(records@).subrange(from as int, to as int) =~= now);
            lemma_part(records_view(records@), from as int, to as int, draws.len() as int, 0);
        }
    }
    proof {
        lemma_shuffled_len(part, draws);
    }
    Ok(())
}

/// Whether no record of a priority has a weight.
pub open spec fn weightless(s: Seq<SrvRecordView>, priority: u16) -> bool {
    forall|i: int| 0 <= i < s.len() && (#[trigger] s[i]).priority == priority ==> s[i].weight == 0
}

/// Whether records are in an order in which they may be tried: all of them, each at a place of its
/// priority, and where no record of a priority has a weight, in the order that they had.
pub open spec fn ordering_of(after: Seq<SrvRecordView>, before: Seq<SrvRecordView>) -> bool {
    let sorted = arranged(before);
    &&& after.len() == before.len()
    &&& after.to_multiset() == before.to_multiset()
    &&& forall|i: int|
        0 <= i < before.len() ==> (#[trigger] after[i]).priority == sorted[i].priority && (
        weightless(before, sorted[i].priority) ==> after[i] == sorted[i])
}

proof fn lemma_weightless_sum(s: Seq<SrvRecordView>, from: int, to: int)
    requires
        forall|i: int| from <= i < to ==> (#[trigger] s[i]).weight == 0,
    ensures
        weight_sum(s, from, to) == 0,
    decreases to - from,
{
    if from < to {
        lemma_weightless_sum(s, from + 1, to);
    }
}

/// All the records of one priority.
pub open spec fn block(s: Seq<SrvRecordView>, from: int, to: int) -> bool {
    &&& 0 <= from < to <= s.len()
    &&& forall|i: int| from <= i < to ==> (#[trigger] s[i]).priority == s[from].priority
    &&& from > 0 ==> s[from - 1].priority != s[from].priority
    &&& to < s.len() ==> s[to].priority != s[from].priority
}

/// Whether records are in an order in which to try them: by priority, and those of one priority in
/// an order that draws by their weights lead to.
pub open spec fn weighted_order(after: Seq<SrvRecordView>, before: Seq<SrvRecordView>) -> bool {
    let sorted = arranged(before);
    &&& ordering_of(after, before)
    &&& forall|from: int, to: int| #[trigger]
        block(sorted, from, to) ==> drawn_order(after.subrange(from, to), sorted.subrange(from, to))
}

/// A block is drawn, and the blocks before it and behind it stay as they are.
proof fn lemma_block_drawn(
    before: Seq<SrvRecordView>,
    s: Seq<SrvRecordView>,
    from: int,
    to: int,
    draws: Seq<u64>,
)
    requires
        ordering_of(s, before),
        forall|i: int| from <= i < s.len() ==> #[trigger] s[i] == arranged(before)[i],
        block(arranged(before), from, to),
        fair(s.subrange(from, to), draws),
    ensures
        ({
            let part = s.subrange(from, to);
            let t = replaced(s, from, to, shuffled(part, draws));
            &&& ordering_of(t, before)
            &&& part == arranged(before).subrange(from, to)
            &&& t.subrange(from, to) == shuffled(part, draws)
            &&& forall|i: int| to <= i < t.len() ==> #[trigger] t[i] == arranged(before)[i]
            &&& forall|a: int, b: int|
                0 <= a <= b <= from ==> #[trigger] t.subrange(a, b) == s.subrange(a, b)
            &&& weightless(before, arranged(before)[from].priority) ==> drawn_out(
                shuffled(part, draws),
                draws.len() as int,
            )
        }),
{
    let sorted = arranged(before);
    let part = s.subrange(from, to);
    let new = shuffled(part, draws);
    let t = replaced(s, from, to, new);
    let priority = sorted[from].priority;
    law_arranged_records_are_in_order(before);
    lemma_shuffled(part, draws);
    assert(part =~= sorted.subrange(from, to));
    assert(t.subrange(from, to) =~= new);
    assert forall|a: int, b: int| 0 <= a <= b <= from implies #[trigger] t.subrange(a, b)
        == s.subrange(a, b) by {
        assert(t.subrange(a, b) =~= s.subrange(a, b));
    }
    assert(t.to_multiset() == s.to_multiset()) by {
        assert(s =~= replaced(s, from, to, part));
        vstd::seq_lib::lemma_multiset_commutative(s.take(from), new);
        vstd::seq_lib::lemma_multiset_commutative(s.take(from), part);
        vstd::seq_lib::lemma_multiset_commutative(s.take(from) + new, s.skip(to));
        vstd::seq_lib::lemma_multiset_commutative(s.take(from) + part, s.skip(to));
    }
    if weightless(before, priority) {
        assert forall|i: int| 0 <= i < part.len() implies (#[trigger] part[i]).weight == 0 by {
            assert(part[i] == sorted[from + i]);
            assert(sorted[from + i].priority == priority);
            to_multiset_contains(sorted, sorted[from + i]);
            to_multiset_contains(before, sorted[from + i]);
            assert(before.contains(sorted[from + i]));
        }
        lemma_weightless_sum(part, 0, part.len() as int);
        assert(draws.len() == 0) by {
            if draws.len() > 0 {
                assert(draws.take(0) =~= Seq::<u64>::empty());
                assert(!drawn_out(shuffled(part, draws.take(0)), 0));
            }
        }
        assert(t =~= s);
    }
    assert forall|i: int| 0 <= i < before.len() implies (#[trigger] t[i]).priority
        == sorted[i].priority && (weightless(before, sorted[i].priority) ==> t[i] == sorted[i]) by {
        if from <= i < to {
            assert(t[i] == new[i - from]);
            to_multiset_contains(new, new[i - from]);
            to_multiset_contains(part, new[i - from]);
            let j = choose|j: int| 0 <= j < part.len() && part[j] == new[i - from];
            assert(part[j] == sorted[from + j]);
            assert(sorted[from + j].priority == priority);
            assert(sorted[i].priority == priority);
            assert(s[i] == sorted[i]);
        } else {
            assert(t[i] == s[i]);
        }
    }
}

/// A block that ends with another one is that block.
proof fn lemma_last_block(s: Seq<SrvRecordView>, start: int, end: int, from: int, to: int)
    requires
        block(s, start, end),
        block(s, from, to),
        start < to <= end,
    ensures
        from == start,
        to == end,
{
    assert(s[to - 1].priority == s[start].priority);
    assert(s[to - 1].priority == s[from].priority);
    if from > start {
        assert(s[from - 1].priority == s[start].priority);
    } else if from < start {
        assert(s[start - 1].priority == s[from].priority);
    }
    if to < end {
        assert(s[to].priority == s[start].priority);
    }
}

/// Whether records are put in order without a draw: those of every priority are one record, or have
/// no weight.
pub open spec fn needs_no_draw(before: Seq<SrvRecordView>) -> bool {
    forall|from: int, to: int| #[trigger]
        block(arranged(before), from, to) ==> drawn_out(arranged(before).subrange(from, to), 0)
}

/// Sorts records by priority, and those of one priority at random by weight: the order in which to
/// try them. It fails only where it has to draw and no random number is to be had.
pub fn sort_srv_records(records: &mut Vec<SrvRecord>) -> (r: Result<(), SeedError>)
    requires
        old(records)@.len() <= u32::MAX,
    ensures
        ordering_of(records_view(final(records)@), records_view(old(records)@)),
        r is Ok ==> weighted_order(
            records_view(final(records)@),
            records_view(old(records)@),
        ),
        r matches Err(error) ==> error@ == no_random(),
        needs_no_draw(records_view(old(records)@)) ==> r is Ok && records_view(final(records)@)
            == arranged(records_view(old(records)@)),
{
    let ghost before = records_view(records@);
    let ghost sorted = arranged(before);
    sort_by_key(records);
    proof {
        law_arranged_records_are_in_order(before);
    }
    let mut start: usize = 0;
    while start < records.len()
        invariant
            start <= records@.len() <= u32::MAX,
            records@.len() == sorted.len(),
            before == records_view(old(records)@),
            sorted == arranged(before),
            0 < start < records@.len() ==> sorted[start - 1].priority != sorted[start as int].priority,
            ordering_of(records_view(records@), before),
            forall|i: int|
                start <= i < records@.len() ==> #[trigger] records_view(records@)[i] == sorted[i],
            forall|from: int, to: int| #[trigger]
                block(sorted, from, to) && to <= start ==> drawn_order(
                    records_view(records@).subrange(from, to),
                    sorted.subrange(from, to),
                ),
            needs_no_draw(before) ==> records_view(records@) == sorted,
        decreases records@.len() - start,
    {
        let ghost s = records_view(records@);
        let end: usize = block_end(records, start);
        proof {
            lemma_same_block(s, sorted, start as int, end as int);
        }
        let outcome = shuffle_srv_weights(records, start, end);
        let ghost t = records_view(records@);
        let ghost part = s.subrange(start as int, end as int);
        let ghost draws = choose|draws: Seq<u64>| #[trigger]
            fair(part, draws) && t == replaced(s, start as int, end as int, shuffled(part, draws))
                && (outcome is Ok <==> drawn_out(shuffled(part, draws), draws.len() as int));
        proof {
            lemma_block_drawn(before, s, start as int, end as int, draws);
            assert(block(sorted, start as int, end as int));
            assert(part == sorted.subrange(start as int, end as int));
        }
        match outcome {
            Ok(()) => {},
            Err(error) => {
                assert(!drawn_out(part, 0));
                return Err(error);
            },
        }
        proof {
            assert forall|from: int, to: int| #[trigger]
                block(sorted, from, to) && to <= end implies drawn_order(
                t.subrange(from, to),
                sorted.subrange(from, to),
            ) by {
                if to <= start {
                    assert(t.subrange(from, to) == s.subrange(from, to));
                } else {
                    lemma_last_block(sorted, start as int, end as int, from, to);
                    assert(fair(part, draws));
                }
            }
        }
        start = end;
    }
    Ok(())
}

/// Where the records of the priority of the one at `start` end.
fn block_end(records: &Vec<SrvRecord>, start: usize) -> (r: usize)
    requires
        start < records@.len(),
    ensures
        start < r <= records@.len(),
        forall|i: int|
            start <= i < r ==> (#[trigger] records_view(records@)[i]).priority == records_view(
                records@,
            )[start as int].priority,
        r < records@.len() ==> records_view(records@)[r as int].priority != records_view(
            records@,
        )[start as int].priority,
{
    let ghost s = records_view(records@);
    let count: usize = records.len();
    let priority: u16 = records[start].priority;
    let mut end: usize = start + 1;
    while end < count && records[end].priority == priority
        invariant
            start < end <= count == records@.len(),
            s == records_view(records@),
            priority == s[start as int].priority,
            forall|i: int| start <= i < end ==> (#[trigger] s[i]).priority == priority,
        decreases records@.len() - end,
    {
        end = end + 1;
    }
    end
}

proof fn lemma_same_block(s: Seq<SrvRecordView>, sorted: Seq<SrvRecordView>, start: int, end: int)
    requires
        0 <= start < end <= s.len(),
        s.len() == sorted.len(),
        start > 0 ==> sorted[start - 1].priority != sorted[start].priority,
        forall|i: int| start <= i < s.len() ==> #[trigger] s[i] == sorted[i],
        forall|i: int| start <= i < end ==> (#[trigger] s[i]).priority == s[start].priority,
        end < s.len() ==> s[end].priority != s[start].priority,
    ensures
        block(sorted, start, end),
        end < s.len() ==> sorted[end - 1].priority != sorted[end].priority,
{
    assert forall|i: int| start <= i < end implies (#[trigger] sorted[i]).priority
        == sorted[start].priority by {
        assert(s[i] == sorted[i] && s[start] == sorted[start]);
    }
    if end < s.len() {
        assert(s[end] == sorted[end] && s[start] == sorted[start]);
    }
}

/// Two records of one priority come from two records of that priority.
proof fn lemma_same_priority(
    before: Seq<SrvRecordView>,
    sorted: Seq<SrvRecordView>,
    i: int,
    j: int,
)
    requires
        before.to_multiset() == sorted.to_multiset(),
        0 <= i < j < sorted.len(),
        sorted[i].priority == sorted[j].priority,
    ensures
        exists|x: int, y: int|
            0 <= x < y < before.len() && (#[trigger] before[x]).priority == (
            #[trigger] before[y]).priority,
{
    if before.no_duplicates() {
        before.lemma_multiset_has_no_duplicates();
        sorted.lemma_multiset_has_no_duplicates_conv();
        to_multiset_contains(sorted, sorted[i]);
        to_multiset_contains(before, sorted[i]);
        to_multiset_contains(sorted, sorted[j]);
        to_multiset_contains(before, sorted[j]);
        let x = choose|x: int| 0 <= x < before.len() && before[x] == sorted[i];
        let y = choose|y: int| 0 <= y < before.len() && before[y] == sorted[j];
        assert(sorted[i] != sorted[j]);
        if x < y {
            assert(before[x].priority == before[y].priority);
        } else {
            assert(before[y].priority == before[x].priority);
        }
    } else {
        let (x, y) = choose|x: int, y: int|
            0 <= x < before.len() && 0 <= y < before.len() && x != y && before[x] == before[y];
        if x < y {
            assert(before[x].priority == before[y].priority);
        } else {
            assert(before[y].priority == before[x].priority);
        }
    }
}

/// Records of which none has a weight, or of which no two have the same priority, are put in order
/// without a draw.
pub proof fn law_ordinary_answers_need_no_draw(before: Seq<SrvRecordView>)
    requires
        (forall|i: int| 0 <= i < before.len() ==> (#[trigger] before[i]).weight == 0) || (forall|
            i: int,
            j: int,
        |
            0 <= i < j < before.len() ==> (#[trigger] before[i]).priority != (
            #[trigger] before[j]).priority),
    ensures
        needs_no_draw(before),
{
    let sorted = arranged(before);
    law_arranged_records_are_in_order(before);
    assert forall|from: int, to: int| #[trigger] block(sorted, from, to) implies drawn_out(
        sorted.subrange(from, to),
        0,
    ) by {
        let part = sorted.subrange(from, to);
        if to - from > 1 {
            assert(sorted[from].priority == sorted[from + 1].priority);
            lemma_same_priority(before, sorted, from, from + 1);
            assert forall|i: int| 0 <= i < part.len() implies (#[trigger] part[i]).weight == 0 by {
                assert(part[i] == sorted[from + i]);
                to_multiset_contains(sorted, sorted[from + i]);
                to_multiset_contains(before, sorted[from + i]);
                assert(before.contains(sorted[from + i]));
            }
            lemma_weightless_sum(part, 0, part.len() as int);
        }
    }
}

/// In every such order the priorities ascend.
pub proof fn law_orderings_go_by_priority(after: Seq<SrvRecordView>, before: Seq<SrvRecordView>)
    requires
        ordering_of(after, before),
    ensures
        forall|i: int, j: int|
            0 <= i < j < after.len() ==> (#[trigger] after[i]).priority <= (
            #[trigger] after[j]).priority,
{
    law_arranged_records_are_in_order(before);
    let sorted = arranged(before);
    assert forall|i: int, j: int| 0 <= i < j < after.len() implies (#[trigger] after[i]).priority
        <= (#[trigger] after[j]).priority by {
        assert(not_behind(sorted[i], sorted[j]));
    }
}

proof fn lemma_block_around(s: Seq<SrvRecordView>, i: int) -> (r: (int, int))
    requires
        0 <= i < s.len(),
    ensures
        block(s, r.0, r.1),
        r.0 <= i < r.1,
{
    let from = lemma_block_from(s, i);
    let to = lemma_block_to(s, i);
    assert(s[from].priority == s[i].priority);
    (from, to)
}

proof fn lemma_block_from(s: Seq<SrvRecordView>, i: int) -> (from: int)
    requires
        0 <= i < s.len(),
    ensures
        0 <= from <= i,
        forall|k: int| from <= k <= i ==> (#[trigger] s[k]).priority == s[i].priority,
        from > 0 ==> s[from - 1].priority != s[i].priority,
    decreases i,
{
    if i > 0 && s[i - 1].priority == s[i].priority {
        lemma_block_from(s, i - 1)
    } else {
        i
    }
}

proof fn lemma_block_to(s: Seq<SrvRecordView>, i: int) -> (to: int)
    requires
        0 <= i < s.len(),
    ensures
        i < to <= s.len(),
        forall|k: int| i <= k < to ==> (#[trigger] s[k]).priority == s[i].priority,
        to < s.len() ==> s[to].priority != s[i].priority,
    decreases s.len() - i,
{
    if i + 1 < s.len() && s[i + 1].priority == s[i].priority {
        lemma_block_to(s, i + 1)
    } else {
        i + 1
    }
}

proof fn lemma_no_weight_left(s: Seq<SrvRecordView>, from: int, to: int, at: int)
    requires
        weight_sum(s, from, to) == 0,
        from <= at < to,
    ensures
        s[at].weight == 0,
    decreases to - from,
{
    if from < at {
        lemma_no_weight_left(s, from + 1, to, at);
    }
}

/// Records that draws put in order come with those that have a weight first.
pub proof fn law_drawn_records_come_first(after: Seq<SrvRecordView>, part: Seq<SrvRecordView>)
    requires
        drawn_order(after, part),
    ensures
        after.len() == part.len(),
        after.to_multiset() == part.to_multiset(),
        forall|i: int, j: int|
            0 <= i < j < after.len() && (#[trigger] after[i]).weight == 0 ==> (
            #[trigger] after[j]).weight == 0,
{
    let draws = choose|draws: Seq<u64>| #[trigger]
        fair(part, draws) && after == shuffled(part, draws) && drawn_out(
            after,
            draws.len() as int,
        );
    lemma_shuffled(part, draws);
    assert forall|i: int, j: int|
        0 <= i < j < after.len() && (#[trigger] after[i]).weight == 0 implies (
    #[trigger] after[j]).weight == 0 by {
        assert(i >= draws.len());
        lemma_no_weight_left(after, draws.len() as int, after.len() as int, j);
    }
}

/// Among the records of one priority those that have a weight are tried first.
pub proof fn law_weighted_records_are_tried_first(
    after: Seq<SrvRecordView>,
    before: Seq<SrvRecordView>,
)
    requires
        weighted_order(after, before),
    ensures
        forall|i: int, j: int|
            0 <= i < j < after.len() && (#[trigger] after[i]).priority == (
            #[trigger] after[j]).priority && after[i].weight == 0 ==> after[j].weight == 0,
{
    let sorted = arranged(before);
    law_arranged_records_are_in_order(before);
    assert forall|i: int, j: int|
        0 <= i < j < after.len() && (#[trigger] after[i]).priority == (
        #[trigger] after[j]).priority && after[i].weight == 0 implies after[j].weight == 0 by {
        let (from, to) = lemma_block_around(sorted, i);
        if j >= to {
            assert(sorted[i].priority == sorted[from].priority);
            assert(not_behind(sorted[i], sorted[to]));
            if j > to {
                assert(not_behind(sorted[to], sorted[j]));
            }
        }
        let part = after.subrange(from, to);
        law_drawn_records_come_first(part, sorted.subrange(from, to));
        assert(part[i - from] == after[i] && part[j - from] == after[j]);
    }
}

} // verus!
