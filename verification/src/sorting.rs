//! Sorting numbers and texts.

use crate::wire::{
    bytes_less, is_bytes_less, lemma_bytes_less_irreflexive, lemma_bytes_less_total,
    lemma_bytes_less_transitive,
};
use vstd::prelude::*;
use vstd::relations::{sorted_by, total_ordering};
use vstd::seq_lib::{lemma_sorted_unique, to_multiset_insert};
use vstd::utf8::encode_utf8;

verus! {

/// The usual order of numbers.
pub open spec fn number_order() -> spec_fn(i32, i32) -> bool {
    |a: i32, b: i32| a <= b
}

/// The order of texts by their bytes.
pub open spec fn text_order() -> spec_fn(Seq<char>, Seq<char>) -> bool {
    |a: Seq<char>, b: Seq<char>| !bytes_less(encode_utf8(b), encode_utf8(a))
}

pub open spec fn texts_view(texts: Seq<String>) -> Seq<Seq<char>> {
    Seq::new(texts.len(), |i: int| texts[i]@)
}

pub proof fn lemma_text_order()
    ensures
        total_ordering(text_order()),
{
    let leq = text_order();
    assert forall|a: Seq<char>| #[trigger] leq(a, a) by {
        lemma_bytes_less_irreflexive(encode_utf8(a));
    }
    assert forall|a: Seq<char>, b: Seq<char>| #[trigger] leq(a, b) && #[trigger] leq(b, a) implies a
        == b by {
        lemma_bytes_less_total(encode_utf8(a), encode_utf8(b));
        vstd::utf8::encode_utf8_decode_utf8(a);
        vstd::utf8::encode_utf8_decode_utf8(b);
    }
    assert forall|a: Seq<char>, b: Seq<char>, c: Seq<char>| #[trigger] leq(a, b) && #[trigger] leq(
        b,
        c,
    ) implies leq(a, c) by {
        let (x, y, z) = (encode_utf8(a), encode_utf8(b), encode_utf8(c));
        if bytes_less(z, x) {
            lemma_bytes_less_total(x, y);
            if bytes_less(x, y) {
                lemma_bytes_less_transitive(z, x, y);
            }
        }
    }
    assert forall|a: Seq<char>, b: Seq<char>| #[trigger] leq(a, b) || #[trigger] leq(b, a) by {
        let (x, y) = (encode_utf8(a), encode_utf8(b));
        if bytes_less(x, y) && bytes_less(y, x) {
            lemma_bytes_less_transitive(x, y, x);
            lemma_bytes_less_irreflexive(x);
        }
    }
}

/// Putting a value behind all that are not above it, in front of all that are, keeps the order.
proof fn lemma_insert<T>(s: Seq<T>, at: int, x: T, leq: spec_fn(T, T) -> bool)
    requires
        total_ordering(leq),
        sorted_by(s, leq),
        0 <= at <= s.len(),
        at > 0 ==> leq(s[at - 1], x),
        at < s.len() ==> leq(x, s[at]),
    ensures
        sorted_by(s.insert(at, x), leq),
        s.insert(at, x).to_multiset() == s.to_multiset().insert(x),
{
    to_multiset_insert(s, at, x);
    let t = s.insert(at, x);
    assert forall|i: int, j: int| 0 <= i < j < t.len() implies #[trigger] leq(t[i], t[j]) by {
        let i2 = if i < at { i } else { i - 1 };
        let j2 = if j < at { j } else { j - 1 };
        if i != at && j != at {
            assert(leq(s[i2], s[j2]));
        } else if j == at {
            if i < at - 1 {
                assert(leq(s[i], s[at - 1]));
                assert(leq(s[at - 1], x));
            }
        } else {
            if j2 > at {
                assert(leq(s[at], s[j2]));
                assert(leq(x, s[at]));
            }
        }
    }
}

/// The numbers in ascending order.
pub fn sort_numbers(values: &Vec<i32>) -> (r: Vec<i32>)
    ensures
        r@ == values@.sort_by(number_order()),
{
    let ghost leq = number_order();
    let ghost all = values@;
    let mut sorted: Vec<i32> = Vec::new();
    let mut i: usize = 0;
    assert(sorted@ =~= all.take(0));
    while i < values.len()
        invariant
            i <= values@.len(),
            all == values@,
            leq == number_order(),
            sorted_by(sorted@, leq),
            sorted@.to_multiset() == all.take(i as int).to_multiset(),
        decreases values@.len() - i,
    {
        let value: i32 = values[i];
        let mut at: usize = sorted.len();
        while at > 0 && sorted[at - 1] > value
            invariant
                at <= sorted@.len(),
                at < sorted@.len() ==> value <= sorted@[at as int],
            decreases at,
        {
            at = at - 1;
        }
        proof {
            lemma_insert(sorted@, at as int, value, leq);
            let seen = all.take(i as int);
            seen.to_multiset_ensures();
            assert(all.take(i + 1) =~= seen.push(value));
        }
        sorted.insert(at, value);
        i = i + 1;
    }
    proof {
        assert(all.take(i as int) =~= all);
        all.lemma_sort_by_ensures(leq);
        lemma_sorted_unique(sorted@, all.sort_by(leq), leq);
    }
    sorted
}

/// The texts in the order of their bytes.
pub fn sort_texts(values: &Vec<String>) -> (r: Vec<String>)
    ensures
        texts_view(r@) == texts_view(values@).sort_by(text_order()),
{
    let ghost leq = text_order();
    let ghost all = texts_view(values@);
    let mut sorted: Vec<String> = Vec::new();
    let mut i: usize = 0;
    proof {
        lemma_text_order();
    }
    assert(texts_view(sorted@) =~= all.take(0));
    while i < values.len()
        invariant
            i <= values@.len(),
            all == texts_view(values@),
            leq == text_order(),
            total_ordering(leq),
            sorted_by(texts_view(sorted@), leq),
            texts_view(sorted@).to_multiset() == all.take(i as int).to_multiset(),
        decreases values@.len() - i,
    {
        let ghost before = texts_view(sorted@);
        let value = values[i].clone();
        let mut at: usize = sorted.len();
        while at > 0 && is_bytes_less(value.as_str().as_bytes(), sorted[at - 1].as_str().as_bytes())
            invariant
                at <= sorted@.len(),
                before == texts_view(sorted@),
                leq == text_order(),
                total_ordering(leq),
                at < sorted@.len() ==> leq(value@, before[at as int]),
            decreases at,
        {
            proof {
                assert(before[at - 1] == sorted@[at - 1]@);
                let x = encode_utf8(value@);
                let y = encode_utf8(before[at - 1]);
                if bytes_less(y, x) {
                    lemma_bytes_less_transitive(x, y, x);
                    lemma_bytes_less_irreflexive(x);
                }
            }
            at = at - 1;
        }
        proof {
            if at > 0 {
                assert(before[at - 1] == sorted@[at - 1]@);
            }
            lemma_insert(before, at as int, value@, leq);
            let seen = all.take(i as int);
            seen.to_multiset_ensures();
            assert(all.take(i + 1) =~= seen.push(value@));
        }
        sorted.insert(at, value);
        assert(texts_view(sorted@) =~= before.insert(at as int, value@));
        i = i + 1;
    }
    proof {
        assert(all.take(i as int) =~= all);
        all.lemma_sort_by_ensures(leq);
        lemma_sorted_unique(texts_view(sorted@), all.sort_by(leq), leq);
    }
    sorted
}

pub open spec fn named_view(values: Seq<(String, i64)>) -> Seq<(Seq<char>, i64)> {
    Seq::new(values.len(), |i: int| (values[i].0@, values[i].1))
}

/// The order of numbers with names: by the bytes of the names, then by the numbers.
pub open spec fn name_order() -> spec_fn((Seq<char>, i64), (Seq<char>, i64)) -> bool {
    |a: (Seq<char>, i64), b: (Seq<char>, i64)|
        bytes_less(encode_utf8(a.0), encode_utf8(b.0)) || (a.0 == b.0 && a.1 <= b.1)
}

pub proof fn lemma_name_order()
    ensures
        total_ordering(name_order()),
{
    let leq = name_order();
    assert forall|a: (Seq<char>, i64), b: (Seq<char>, i64)| #[trigger] leq(a, b) && #[trigger] leq(
        b,
        a,
    ) implies a == b by {
        let (x, y) = (encode_utf8(a.0), encode_utf8(b.0));
        lemma_bytes_less_irreflexive(x);
        if bytes_less(x, y) && bytes_less(y, x) {
            lemma_bytes_less_transitive(x, y, x);
        }
    }
    assert forall|a: (Seq<char>, i64), b: (Seq<char>, i64), c: (Seq<char>, i64)| #[trigger] leq(
        a,
        b,
    ) && #[trigger] leq(b, c) implies leq(a, c) by {
        let (x, y, z) = (encode_utf8(a.0), encode_utf8(b.0), encode_utf8(c.0));
        if bytes_less(x, y) && bytes_less(y, z) {
            lemma_bytes_less_transitive(x, y, z);
        }
    }
    assert forall|a: (Seq<char>, i64), b: (Seq<char>, i64)| #[trigger] leq(a, b) || #[trigger] leq(
        b,
        a,
    ) by {
        lemma_bytes_less_total(encode_utf8(a.0), encode_utf8(b.0));
        vstd::utf8::encode_utf8_decode_utf8(a.0);
        vstd::utf8::encode_utf8_decode_utf8(b.0);
    }
}

fn is_name_before(a: &(String, i64), b: &(String, i64)) -> (r: bool)
    ensures
        r == !name_order()((b.0@, b.1), (a.0@, a.1)),
{
    let x = a.0.as_str().as_bytes();
    let y = b.0.as_str().as_bytes();
    proof {
        lemma_bytes_less_irreflexive(x@);
        lemma_bytes_less_total(x@, y@);
        vstd::utf8::encode_utf8_decode_utf8(a.0@);
        vstd::utf8::encode_utf8_decode_utf8(b.0@);
        if bytes_less(x@, y@) && bytes_less(y@, x@) {
            lemma_bytes_less_transitive(x@, y@, x@);
        }
    }
    if is_bytes_less(x, y) {
        true
    } else if is_bytes_less(y, x) {
        false
    } else {
        a.1 < b.1
    }
}

/// The numbers in the order of their names, and those with one name in ascending order.
pub fn sort_named(values: Vec<(String, i64)>) -> (r: Vec<(String, i64)>)
    ensures
        named_view(r@) == named_view(values@).sort_by(name_order()),
{
    let ghost leq = name_order();
    let ghost all = named_view(values@);
    let mut values = values;
    let mut sorted: Vec<(String, i64)> = Vec::new();
    proof {
        lemma_name_order();
    }
    assert(named_view(sorted@) =~= all.skip(all.len() as int));
    while values.len() > 0
        invariant
            values@.len() <= all.len(),
            named_view(values@) == all.take(values@.len() as int),
            leq == name_order(),
            total_ordering(leq),
            sorted_by(named_view(sorted@), leq),
            named_view(sorted@).to_multiset() == all.skip(values@.len() as int).to_multiset(),
        decreases values@.len(),
    {
        let ghost more = values@;
        let value = values.pop().unwrap();
        let ghost x = (value.0@, value.1);
        let ghost count = values@.len() as int;
        proof {
            assert(named_view(more)[count] == all[count]);
            assert(named_view(values@) =~= all.take(count)) by {
                assert forall|i: int| 0 <= i < count implies named_view(values@)[i]
                    == #[trigger] all.take(count)[i] by {
                    assert(named_view(more)[i] == all.take(count + 1)[i]);
                }
            }
        }
        let ghost before = named_view(sorted@);
        let mut at: usize = sorted.len();
        while at > 0 && is_name_before(&value, &sorted[at - 1])
            invariant
                at <= sorted@.len(),
                before == named_view(sorted@),
                x == (value.0@, value.1),
                leq == name_order(),
                total_ordering(leq),
                at < sorted@.len() ==> leq(x, before[at as int]),
            decreases at,
        {
            assert(!leq(before[at - 1], x));
            at = at - 1;
        }
        proof {
            if at > 0 {
                assert(leq(before[at - 1], x));
            }
            lemma_insert(before, at as int, x, leq);
            to_multiset_insert(all.skip(count + 1), 0, x);
            assert(all.skip(count + 1).insert(0, x) =~= all.skip(count));
        }
        sorted.insert(at, value);
        assert(named_view(sorted@) =~= before.insert(at as int, x));
    }
    proof {
        assert(all.skip(0) =~= all);
        all.lemma_sort_by_ensures(leq);
        lemma_sorted_unique(named_view(sorted@), all.sort_by(leq), leq);
    }
    sorted
}

/// Sorted numbers ascend, and are the numbers that there were.
pub proof fn law_sorted_numbers_ascend(values: Seq<i32>, i: int, j: int)
    requires
        0 <= i <= j < values.len(),
    ensures
        values.sort_by(number_order()).len() == values.len(),
        values.sort_by(number_order()).to_multiset() == values.to_multiset(),
        values.sort_by(number_order())[i] <= values.sort_by(number_order())[j],
{
    assert(total_ordering(number_order()));
    values.lemma_sort_by_ensures(number_order());
    let sorted = values.sort_by(number_order());
    lemma_same_len(values, sorted);
    if i < j {
        assert(number_order()(sorted[i], sorted[j]));
    }
}

/// Sorted texts ascend by their bytes, and are the texts that there were.
pub proof fn law_sorted_texts_ascend(values: Seq<Seq<char>>, i: int, j: int)
    requires
        0 <= i < j < values.len(),
    ensures
        values.sort_by(text_order()).len() == values.len(),
        values.sort_by(text_order()).to_multiset() == values.to_multiset(),
        !bytes_less(
            encode_utf8(values.sort_by(text_order())[j]),
            encode_utf8(values.sort_by(text_order())[i]),
        ),
{
    lemma_text_order();
    values.lemma_sort_by_ensures(text_order());
    let sorted = values.sort_by(text_order());
    lemma_same_len(values, sorted);
    assert(text_order()(sorted[i], sorted[j]));
}

/// Sorted names ascend by their bytes, and where names are equal their numbers do; and they are the
/// names and numbers that there were.
pub proof fn law_sorted_names_ascend(values: Seq<(Seq<char>, i64)>, i: int, j: int)
    requires
        0 <= i < j < values.len(),
    ensures
        values.sort_by(name_order()).len() == values.len(),
        values.sort_by(name_order()).to_multiset() == values.to_multiset(),
        ({
            let a = values.sort_by(name_order())[i];
            let b = values.sort_by(name_order())[j];
            &&& !bytes_less(encode_utf8(b.0), encode_utf8(a.0))
            &&& a.0 == b.0 ==> a.1 <= b.1
        }),
{
    lemma_name_order();
    values.lemma_sort_by_ensures(name_order());
    let sorted = values.sort_by(name_order());
    lemma_same_len(values, sorted);
    assert(name_order()(sorted[i], sorted[j]));
    lemma_bytes_less_irreflexive(encode_utf8(sorted[i].0));
    if bytes_less(encode_utf8(sorted[i].0), encode_utf8(sorted[j].0)) && bytes_less(
        encode_utf8(sorted[j].0),
        encode_utf8(sorted[i].0),
    ) {
        lemma_bytes_less_transitive(
            encode_utf8(sorted[i].0),
            encode_utf8(sorted[j].0),
            encode_utf8(sorted[i].0),
        );
    }
}

proof fn lemma_same_len<T>(a: Seq<T>, b: Seq<T>)
    requires
        a.to_multiset() == b.to_multiset(),
    ensures
        a.len() == b.len(),
{
    a.to_multiset_ensures();
    b.to_multiset_ensures();
}

// ---------------------------------------------------------------------------
// Views
// ---------------------------------------------------------------------------

/// What stands for a list has what stands for each of its items, in order.
pub proof fn law_texts_view_keeps_order(texts: Seq<String>, i: int)
    requires
        0 <= i < texts.len(),
    ensures
        texts_view(texts).len() == texts.len(),
        texts_view(texts)[i] == texts[i]@,
{
}

} // verus!
