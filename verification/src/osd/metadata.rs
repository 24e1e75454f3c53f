//! Payloads about the key-value pairs of an object.

use crate::wire::{
    bounded, bytes_less, bytes_result, concatenated, finished, get_bool, get_bytes, get_u32, input,
    is_bytes_less, law_bytes, law_u32, le32, le64, lemma_bytes_less_irreflexive,
    lemma_bytes_less_total, lemma_bytes_less_transitive, limited_input, prefixed, same_bytes,
    unsigned32, Decoder, Encoder, Input, WireError, MAX_ENCODING,
};
use vstd::prelude::*;
use vstd::slice::slice_to_vec;

verus! {

broadcast use crate::wire::group_integers;

/// A key and its value.
#[derive(Debug, PartialEq, Eq)]
pub struct Entry {
    pub key: Vec<u8>,
    pub value: Vec<u8>,
}

#[verifier::ext_equal]
pub struct EntryView {
    pub key: Seq<u8>,
    pub value: Seq<u8>,
}

impl View for Entry {
    type V = EntryView;

    open spec fn view(&self) -> EntryView {
        EntryView { key: self.key@, value: self.value@ }
    }
}

impl Clone for Entry {
    fn clone(&self) -> (r: Self)
        ensures
            r@ == self@,
    {
        Entry {
            key: slice_to_vec(self.key.as_slice()),
            value: slice_to_vec(self.value.as_slice()),
        }
    }
}

pub open spec fn entries_view(entries: Seq<Entry>) -> Seq<EntryView> {
    Seq::new(entries.len(), |i: int| entries[i]@)
}

// ---------------------------------------------------------------------------
// Sorting
// ---------------------------------------------------------------------------

/// No key occurs twice.
pub open spec fn distinct_keys(entries: Seq<EntryView>) -> bool {
    forall|i: int, j: int|
        0 <= i < j < entries.len() ==> (#[trigger] entries[i]).key != (#[trigger] entries[j]).key
}

/// Every key comes before those that follow it.
pub open spec fn ascending(entries: Seq<EntryView>) -> bool {
    forall|i: int, j: int|
        0 <= i < j < entries.len() ==> bytes_less(
            (#[trigger] entries[i]).key,
            (#[trigger] entries[j]).key,
        )
}

/// The same entries in the order of their keys.
pub open spec fn sorted_entries(entries: Seq<EntryView>) -> Seq<EntryView> {
    choose|s: Seq<EntryView>| #[trigger]
        ascending(s) && s.to_multiset() == entries.to_multiset()
}

pub proof fn lemma_same_members(a: Seq<EntryView>, b: Seq<EntryView>, x: EntryView)
    requires
        a.to_multiset() == b.to_multiset(),
        a.contains(x),
    ensures
        b.contains(x),
{
    a.to_multiset_ensures();
    b.to_multiset_ensures();
    assert(a.to_multiset().count(x) > 0);
    assert(b.to_multiset().count(x) > 0);
}

/// There is only one way to sort entries.
pub proof fn lemma_sorted_is_unique(a: Seq<EntryView>, b: Seq<EntryView>)
    requires
        ascending(a),
        ascending(b),
        a.to_multiset() == b.to_multiset(),
    ensures
        a == b,
    decreases a.len(),
{
    broadcast use vstd::multiset::group_multiset_axioms;

    a.to_multiset_ensures();
    b.to_multiset_ensures();
    if a.len() == 0 {
        assert(a =~= b);
    } else {
        let n = a.len() - 1;
        assert(a.contains(a[n]));
        assert(b.contains(b[n]));
        assert(b.to_multiset().count(a[n]) > 0);
        assert(a.to_multiset().count(b[n]) > 0);
        let i = choose|i: int| 0 <= i < b.len() && b[i] == a[n];
        let j = choose|j: int| 0 <= j < a.len() && a[j] == b[n];
        if i < n && j < n {
            assert(bytes_less(b[i].key, b[n].key));
            assert(bytes_less(a[j].key, a[n].key));
            lemma_bytes_less_transitive(a[n].key, b[n].key, a[n].key);
            lemma_bytes_less_irreflexive(a[n].key);
        }
        assert(a[n] == b[n]);
        assert(a.drop_last() =~= a.remove(n));
        assert(b.drop_last() =~= b.remove(n));
        assert(a.remove(n).to_multiset() == b.remove(n).to_multiset());
        assert(ascending(a.drop_last())) by {
            assert forall|x: int, y: int| 0 <= x < y < a.drop_last().len() implies bytes_less(
                (#[trigger] a.drop_last()[x]).key,
                (#[trigger] a.drop_last()[y]).key,
            ) by {
                assert(bytes_less(a[x].key, a[y].key));
            }
        }
        assert(ascending(b.drop_last())) by {
            assert forall|x: int, y: int| 0 <= x < y < b.drop_last().len() implies bytes_less(
                (#[trigger] b.drop_last()[x]).key,
                (#[trigger] b.drop_last()[y]).key,
            ) by {
                assert(bytes_less(b[x].key, b[y].key));
            }
        }
        lemma_sorted_is_unique(a.drop_last(), b.drop_last());
        assert(a =~= a.drop_last().push(a[n]));
        assert(b =~= b.drop_last().push(b[n]));
    }
}

/// Where an entry belongs among sorted ones, or nowhere if its key is there.
fn place(sorted: &Vec<Entry>, entry: &Entry) -> (r: Option<usize>)
    requires
        ascending(entries_view(sorted@)),
    ensures
        match r {
            Some(at) => {
                &&& at <= sorted@.len()
                &&& forall|i: int|
                    0 <= i < at ==> bytes_less(
                        (#[trigger] entries_view(sorted@)[i]).key,
                        entry.key@,
                    )
                &&& forall|i: int|
                    at <= i < sorted@.len() ==> bytes_less(
                        entry.key@,
                        (#[trigger] entries_view(sorted@)[i]).key,
                    )
            },
            None => exists|i: int|
                0 <= i < sorted@.len() && (#[trigger] entries_view(sorted@)[i]).key == entry.key@,
        },
{
    let ghost all = entries_view(sorted@);
    let mut at: usize = sorted.len();
    while at > 0
        invariant
            at <= sorted@.len(),
            all == entries_view(sorted@),
            ascending(all),
            forall|i: int|
                at <= i < sorted@.len() ==> bytes_less(entry.key@, (#[trigger] all[i]).key),
        decreases at,
    {
        let ghost previous = all[at - 1];
        assert(previous == sorted@[at - 1]@);
        proof {
            lemma_bytes_less_total(previous.key, entry.key@);
        }
        if same_bytes(sorted[at - 1].key.as_slice(), entry.key.as_slice()) {
            return None;
        }
        if is_bytes_less(sorted[at - 1].key.as_slice(), entry.key.as_slice()) {
            assert forall|i: int| 0 <= i < at implies bytes_less(
                (#[trigger] all[i]).key,
                entry.key@,
            ) by {
                if i < at - 1 {
                    assert(bytes_less(all[i].key, all[at - 1].key));
                    lemma_bytes_less_transitive(all[i].key, all[at - 1].key, entry.key@);
                }
            }
            return Some(at);
        }
        at = at - 1;
    }
    Some(0)
}

/// The entries in the order of their keys, unless a key occurs twice.
pub fn sort_entries(entries: &Vec<Entry>) -> (r: Option<Vec<Entry>>)
    ensures
        r matches Some(sorted) ==> distinct_keys(entries_view(entries@)) && entries_view(sorted@)
            == sorted_entries(entries_view(entries@)) && ascending(entries_view(sorted@))
            && sorted@.len() == entries@.len(),
        r is None ==> !distinct_keys(entries_view(entries@)),
{
    let ghost all = entries_view(entries@);
    let mut sorted: Vec<Entry> = Vec::new();
    let mut i: usize = 0;
    assert(entries_view(sorted@) =~= all.take(0));
    while i < entries.len()
        invariant
            i <= entries@.len(),
            all == entries_view(entries@),
            sorted@.len() == i,
            ascending(entries_view(sorted@)),
            entries_view(sorted@).to_multiset() == all.take(i as int).to_multiset(),
            distinct_keys(all.take(i as int)),
        decreases entries@.len() - i,
    {
        let ghost before = entries_view(sorted@);
        let ghost seen = all.take(i as int);
        let entry = entries[i].clone();
        assert(entry@ == all[i as int]);
        assert(all.take(i + 1) =~= seen.push(entry@));
        match place(&sorted, &entry) {
            None => {
                proof {
                    let j = choose|j: int|
                        0 <= j < sorted@.len() && (#[trigger] before[j]).key == entry.key@;
                    lemma_same_members(before, seen, before[j]);
                    let k = choose|k: int| 0 <= k < seen.len() && seen[k] == before[j];
                    assert(all[k].key == all[i as int].key);
                }
                return None;
            },
            Some(at) => {
                proof {
                    assert forall|x: int, y: int| 0 <= x < y < all.take(i + 1).len() implies (
                    #[trigger] all.take(i + 1)[x]).key != (#[trigger] all.take(i + 1)[y]).key by {
                        if y < i {
                            assert(seen[x].key != seen[y].key);
                        } else {
                            lemma_same_members(seen, before, seen[x]);
                            let k = choose|k: int| 0 <= k < before.len() && before[k] == seen[x];
                            lemma_bytes_less_irreflexive(entry.key@);
                        }
                    }
                }
                sorted.insert(at, entry);
                proof {
                    let after = entries_view(sorted@);
                    assert(after =~= before.insert(at as int, entry@));
                    vstd::seq_lib::to_multiset_insert(before, at as int, entry@);
                    seen.to_multiset_ensures();
                    assert forall|x: int, y: int| 0 <= x < y < after.len() implies bytes_less(
                        (#[trigger] after[x]).key,
                        (#[trigger] after[y]).key,
                    ) by {
                        let x2 = if x < at { x } else { x - 1 };
                        let y2 = if y < at { y } else { y - 1 };
                        if x != at && y != at {
                            assert(bytes_less(before[x2].key, before[y2].key));
                        }
                    }
                }
            },
        }
        i = i + 1;
    }
    proof {
        assert(all.take(i as int) =~= all);
        let s = entries_view(sorted@);
        assert(ascending(s) && s.to_multiset() == all.to_multiset());
        lemma_sorted_is_unique(s, sorted_entries(all));
    }
    Some(sorted)
}

// ---------------------------------------------------------------------------
// Encoding
// ---------------------------------------------------------------------------

pub open spec fn entry_encoder() -> spec_fn(EntryView) -> Seq<u8> {
    |e: EntryView| prefixed(e.key) + prefixed(e.value)
}

/// Entries on the wire.
pub open spec fn map_bytes(entries: Seq<EntryView>) -> Seq<u8> {
    le32(entries.len() as u32) + concatenated(entries, entry_encoder())
}

pub open spec fn key_encoder() -> spec_fn(EntryView) -> Seq<u8> {
    |e: EntryView| prefixed(e.key)
}

/// Keys on the wire.
pub open spec fn keys_bytes(entries: Seq<EntryView>) -> Seq<u8> {
    le32(entries.len() as u32) + concatenated(entries, key_encoder())
}

/// Keys as entries without values.
pub open spec fn bare(keys: Seq<Vec<u8>>) -> Seq<EntryView> {
    Seq::new(keys.len(), |i: int| EntryView { key: keys[i]@, value: Seq::empty() })
}

/// What `encode_map` yields: the entries in the order of their keys, none of which may occur
/// twice.
pub open spec fn map_encoding(entries: Seq<EntryView>, max_bytes: nat) -> Result<
    Seq<u8>,
    WireError,
> {
    if entries.len() > u32::MAX || !distinct_keys(entries) {
        Err(WireError::Malformed)
    } else {
        bounded(map_bytes(sorted_entries(entries)), max_bytes)
    }
}

/// What `encode_keys` yields.
pub open spec fn keys_encoding(keys: Seq<EntryView>, max_bytes: nat) -> Result<
    Seq<u8>,
    WireError,
> {
    if keys.len() > u32::MAX || !distinct_keys(keys) {
        Err(WireError::Malformed)
    } else {
        bounded(keys_bytes(sorted_entries(keys)), max_bytes)
    }
}

/// Asks for at most `limit` entries whose keys come after `after`.
/// Asks for the entries after a key, at most so many, of all beginnings.
pub open spec fn list_request_bytes(after: Seq<u8>, limit: u64) -> Seq<u8> {
    prefixed(after) + (le64(limit) + prefixed(Seq::empty()))
}

/// A range of keys.
pub open spec fn range_bytes(begin: Seq<u8>, end: Seq<u8>) -> Seq<u8> {
    prefixed(begin) + prefixed(end)
}

/// One comparison of the value of a key.
pub open spec fn comparison_bytes(key: Seq<u8>, value: Seq<u8>, comparison: i32) -> Seq<u8> {
    le32(1) + (prefixed(key) + (prefixed(value) + le32(unsigned32(comparison))))
}

pub fn encode_list_request(after: &[u8], limit: u64, max_bytes: usize) -> (r: Result<
    Vec<u8>,
    WireError,
>)
    ensures
        bytes_result(r) == bounded(
            list_request_bytes(after@, limit),
            max_bytes as nat,
        ),
{
    let mut encoder = Encoder::new(max_bytes);
    encoder.bytes(after);
    encoder.u64(limit);
    let nothing: Vec<u8> = Vec::new();
    encoder.bytes(nothing.as_slice());
    assert(nothing@ =~= Seq::empty());
    assert(encoder@ =~= prefixed(after@) + (le64(limit) + prefixed(Seq::empty())));
    encoder.finish()
}

pub fn encode_map(entries: &Vec<Entry>, max_bytes: usize) -> (r: Result<Vec<u8>, WireError>)
    ensures
        bytes_result(r) == map_encoding(entries_view(entries@), max_bytes as nat),
{
    let sorted = match sort_entries(entries) {
        Some(sorted) => sorted,
        None => {
            return Err(WireError::Malformed);
        },
    };
    if sorted.len() as u64 > u32::MAX as u64 {
        return Err(WireError::Malformed);
    }
    let ghost all = entries_view(sorted@);
    let mut encoder = Encoder::new(max_bytes);
    encoder.u32(sorted.len() as u32);
    let ghost start = encoder@;
    let ghost limit = encoder.limit();
    let mut i: usize = 0;
    assert(encoder@ =~= start + concatenated(all.take(0), entry_encoder()));
    while i < sorted.len()
        invariant
            i <= sorted@.len(),
            all == entries_view(sorted@),
            encoder.wf(),
            encoder.limit() == limit,
            encoder@ == start + concatenated(all.take(i as int), entry_encoder()),
        decreases sorted@.len() - i,
    {
        assert(all[i as int] == sorted@[i as int]@);
        encoder.bytes(sorted[i].key.as_slice());
        encoder.bytes(sorted[i].value.as_slice());
        assert(all.take(i + 1).drop_last() =~= all.take(i as int));
        assert(encoder@ =~= start + concatenated(all.take(i + 1), entry_encoder()));
        i = i + 1;
    }
    assert(all.take(i as int) =~= all);
    assert(encoder@ =~= map_bytes(all));
    encoder.finish()
}

fn as_entries(keys: &Vec<Vec<u8>>) -> (r: Vec<Entry>)
    ensures
        entries_view(r@) == bare(keys@),
{
    let mut entries: Vec<Entry> = Vec::new();
    let mut i: usize = 0;
    while i < keys.len()
        invariant
            i <= keys@.len(),
            entries@.len() == i,
            forall|j: int|
                0 <= j < i ==> (#[trigger] entries@[j])@ == (EntryView {
                    key: keys@[j]@,
                    value: Seq::empty(),
                }),
        decreases keys@.len() - i,
    {
        let value: Vec<u8> = Vec::new();
        assert(value@ =~= Seq::empty());
        entries.push(Entry { key: slice_to_vec(keys[i].as_slice()), value });
        i = i + 1;
    }
    assert(entries_view(entries@) =~= bare(keys@));
    entries
}

pub fn encode_keys(keys: &Vec<Vec<u8>>, max_bytes: usize) -> (r: Result<Vec<u8>, WireError>)
    ensures
        bytes_result(r) == keys_encoding(bare(keys@), max_bytes as nat),
{
    let entries = as_entries(keys);
    assert(entries_view(entries@).len() == bare(keys@).len());
    let sorted = match sort_entries(&entries) {
        Some(sorted) => sorted,
        None => {
            return Err(WireError::Malformed);
        },
    };
    if sorted.len() as u64 > u32::MAX as u64 {
        return Err(WireError::Malformed);
    }
    let ghost all = entries_view(sorted@);
    let mut encoder = Encoder::new(max_bytes);
    encoder.u32(sorted.len() as u32);
    let ghost start = encoder@;
    let ghost limit = encoder.limit();
    let mut i: usize = 0;
    assert(encoder@ =~= start + concatenated(all.take(0), key_encoder()));
    while i < sorted.len()
        invariant
            i <= sorted@.len(),
            all == entries_view(sorted@),
            encoder.wf(),
            encoder.limit() == limit,
            encoder@ == start + concatenated(all.take(i as int), key_encoder()),
        decreases sorted@.len() - i,
    {
        assert(all[i as int] == sorted@[i as int]@);
        encoder.bytes(sorted[i].key.as_slice());
        assert(all.take(i + 1).drop_last() =~= all.take(i as int));
        assert(encoder@ =~= start + concatenated(all.take(i + 1), key_encoder()));
        i = i + 1;
    }
    assert(all.take(i as int) =~= all);
    assert(encoder@ =~= keys_bytes(all));
    encoder.finish()
}

/// The keys from `begin`, which belongs to the range, to `end`, which does not.
pub fn encode_range(begin: &[u8], end: &[u8], max_bytes: usize) -> (r: Result<Vec<u8>, WireError>)
    ensures
        bytes_result(r) == if bytes_less(begin@, end@) {
            bounded(range_bytes(begin@, end@), max_bytes as nat)
        } else {
            Err(WireError::Malformed)
        },
{
    if !is_bytes_less(begin, end) {
        return Err(WireError::Malformed);
    }
    let mut encoder = Encoder::new(max_bytes);
    encoder.bytes(begin);
    encoder.bytes(end);
    assert(encoder@ =~= prefixed(begin@) + prefixed(end@));
    encoder.finish()
}

/// Compares the value of one key.
pub fn encode_compare(key: &[u8], value: &[u8], comparison: i32, max_bytes: usize) -> (r: Result<
    Vec<u8>,
    WireError,
>)
    ensures
        bytes_result(r) == bounded(
            comparison_bytes(key@, value@, comparison),
            max_bytes as nat,
        ),
{
    let mut encoder = Encoder::new(max_bytes);
    encoder.u32(1);
    encoder.bytes(key);
    encoder.bytes(value);
    encoder.i32(comparison);
    assert(encoder@ =~= le32(1) + (prefixed(key@) + (prefixed(value@) + le32(
        unsigned32(comparison),
    ))));
    encoder.finish()
}

// ---------------------------------------------------------------------------
// Decoding
// ---------------------------------------------------------------------------

/// The next `count` entries, whose keys must ascend.
pub open spec fn get_ascending(d: Input, count: nat) -> Result<(Seq<EntryView>, Input), WireError>
    decreases count,
{
    if count == 0 {
        Ok((Seq::empty(), d))
    } else {
        match get_ascending(d, (count - 1) as nat) {
            Err(error) => Err(error),
            Ok((entries, d1)) => {
                let (key, d2) = get_bytes(d1);
                let (value, d3) = get_bytes(d2);
                if finished(d3) is Err {
                    Err(finished(d3)->Err_0)
                } else if entries.len() > 0 && !bytes_less(entries.last().key, key) {
                    Err(WireError::Malformed)
                } else {
                    Ok((entries.push(EntryView { key, value }), d3))
                }
            },
        }
    }
}

proof fn lemma_ascending_error(d: Input, part: nat, count: nat)
    requires
        part <= count,
        get_ascending(d, part) is Err,
    ensures
        get_ascending(d, count) == get_ascending(d, part),
    decreases count,
{
    if part < count {
        lemma_ascending_error(d, part, (count - 1) as nat);
    }
}

/// The next entries of the input, at most `max` of them.
pub open spec fn get_entries(d: Input, max: nat) -> Result<(Seq<EntryView>, Input), WireError> {
    let (count, d1) = get_u32(d);
    if finished(d1) is Err {
        Err(finished(d1)->Err_0)
    } else if count > max || count * 8 > d1.rest.len() {
        Err(WireError::LimitExceeded)
    } else {
        get_ascending(d1, count as nat)
    }
}

/// What `decode_map` yields.
pub open spec fn map_decoding(data: Seq<u8>, max_bytes: nat, max_entries: nat) -> Result<
    Seq<EntryView>,
    WireError,
> {
    match get_entries(limited_input(data, max_bytes), max_entries) {
        Err(error) => Err(error),
        Ok((entries, d)) => if finished(d) is Err {
            Err(finished(d)->Err_0)
        } else if d.rest.len() != 0 {
            Err(WireError::Malformed)
        } else {
            Ok(entries)
        },
    }
}

/// What `decode_page` yields: entries, and whether more follow.
pub open spec fn page_decoding(data: Seq<u8>, max_bytes: nat, max_entries: nat) -> Result<
    (Seq<EntryView>, bool),
    WireError,
> {
    match get_entries(limited_input(data, max_bytes), max_entries) {
        Err(error) => Err(error),
        Ok((entries, d)) => {
            let (more, d1) = get_bool(d);
            if finished(d1) is Err {
                Err(finished(d1)->Err_0)
            } else if d1.rest.len() != 0 {
                Err(WireError::Malformed)
            } else {
                Ok((entries, more))
            }
        },
    }
}

fn decode_entries(decoder: &mut Decoder<'_>, max_entries: usize) -> (r: Result<
    Vec<Entry>,
    WireError,
>)
    ensures
        r matches Ok(entries) ==> get_entries(old(decoder)@, max_entries as nat) == Ok::<
            (Seq<EntryView>, Input),
            WireError,
        >((entries_view(entries@), final(decoder)@)),
        r matches Err(error) ==> get_entries(old(decoder)@, max_entries as nat) == Err::<
            (Seq<EntryView>, Input),
            WireError,
        >(error),
{
    let count: u32 = decoder.u32();
    decoder.finish()?;
    if count as usize > max_entries || count as u64 * 8 > decoder.remaining() as u64 {
        return Err(WireError::LimitExceeded);
    }
    let ghost start = decoder@;
    let mut entries: Vec<Entry> = Vec::new();
    let mut i: u32 = 0;
    assert(entries_view(entries@) =~= Seq::<EntryView>::empty());
    while i < count
        invariant
            i <= count,
            entries@.len() == i,
            get_entries(old(decoder)@, max_entries as nat) == get_ascending(start, count as nat),
            get_ascending(start, i as nat) == Ok::<(Seq<EntryView>, Input), WireError>(
                (entries_view(entries@), decoder@),
            ),
        decreases count - i,
    {
        let ghost before = entries_view(entries@);
        let key = decoder.bytes();
        let value = decoder.bytes();
        match decoder.finish() {
            Ok(_) => {},
            Err(error) => {
                proof {
                    lemma_ascending_error(start, (i + 1) as nat, count as nat);
                }
                return Err(error);
            },
        }
        if i > 0 {
            let previous: usize = entries.len() - 1;
            assert(before.last() == entries@[previous as int]@);
            if !is_bytes_less(entries[previous].key.as_slice(), key.as_slice()) {
                proof {
                    lemma_ascending_error(start, (i + 1) as nat, count as nat);
                }
                return Err(WireError::Malformed);
            }
        }
        let entry = Entry { key, value };
        entries.push(entry);
        assert(entries_view(entries@) =~= before.push(entry@));
        i = i + 1;
    }
    Ok(entries)
}

pub fn decode_map(data: &[u8], max_bytes: usize, max_entries: usize) -> (r: Result<
    Vec<Entry>,
    WireError,
>)
    ensures
        r matches Ok(entries) ==> map_decoding(data@, max_bytes as nat, max_entries as nat)
            == Ok::<Seq<EntryView>, WireError>(entries_view(entries@)),
        r matches Err(error) ==> map_decoding(data@, max_bytes as nat, max_entries as nat)
            == Err::<Seq<EntryView>, WireError>(error),
{
    let mut decoder = Decoder::new(data, max_bytes);
    let entries = decode_entries(&mut decoder, max_entries)?;
    decoder.finish()?;
    if decoder.remaining() != 0 {
        return Err(WireError::Malformed);
    }
    Ok(entries)
}

pub fn decode_page(data: &[u8], max_bytes: usize, max_entries: usize) -> (r: Result<
    (Vec<Entry>, bool),
    WireError,
>)
    ensures
        r matches Ok(page) ==> page_decoding(data@, max_bytes as nat, max_entries as nat) == Ok::<
            (Seq<EntryView>, bool),
            WireError,
        >((entries_view(page.0@), page.1)),
        r matches Err(error) ==> page_decoding(data@, max_bytes as nat, max_entries as nat)
            == Err::<(Seq<EntryView>, bool), WireError>(error),
{
    let mut decoder = Decoder::new(data, max_bytes);
    let entries = decode_entries(&mut decoder, max_entries)?;
    let more = decoder.bool();
    decoder.finish()?;
    if decoder.remaining() != 0 {
        return Err(WireError::Malformed);
    }
    Ok((entries, more))
}

// ---------------------------------------------------------------------------
// Laws
// ---------------------------------------------------------------------------

proof fn lemma_entries_size(entries: Seq<EntryView>)
    ensures
        concatenated(entries, entry_encoder()).len() >= 8 * entries.len(),
        forall|i: int|
            0 <= i < entries.len() ==> (#[trigger] entries[i]).key.len()
                + entries[i].value.len() <= concatenated(entries, entry_encoder()).len(),
    decreases entries.len(),
{
    if entries.len() > 0 {
        let shorter = entries.drop_last();
        lemma_entries_size(shorter);
        assert forall|i: int| 0 <= i < entries.len() implies (#[trigger] entries[i]).key.len()
            + entries[i].value.len() <= concatenated(entries, entry_encoder()).len() by {
            if i < shorter.len() {
                assert(shorter[i] == entries[i]);
            }
        }
    }
}

proof fn lemma_ascending_reads(entries: Seq<EntryView>, tail: Seq<u8>)
    requires
        ascending(entries),
        concatenated(entries, entry_encoder()).len() <= MAX_ENCODING,
    ensures
        get_ascending(
            input(concatenated(entries, entry_encoder()) + tail),
            entries.len(),
        ) == Ok::<(Seq<EntryView>, Input), WireError>((entries, input(tail))),
    decreases entries.len(),
{
    let all = concatenated(entries, entry_encoder());
    if entries.len() == 0 {
        assert(all + tail =~= tail);
        assert(entries =~= Seq::empty());
    } else {
        let shorter = entries.drop_last();
        let last = entries.last();
        let rest = prefixed(last.key) + (prefixed(last.value) + tail);
        assert(ascending(shorter)) by {
            assert forall|x: int, y: int| 0 <= x < y < shorter.len() implies bytes_less(
                (#[trigger] shorter[x]).key,
                (#[trigger] shorter[y]).key,
            ) by {
                assert(bytes_less(entries[x].key, entries[y].key));
            }
        }
        lemma_ascending_reads(shorter, rest);
        assert(all + tail =~= concatenated(shorter, entry_encoder()) + rest);
        lemma_entries_size(entries);
        assert(entries[entries.len() - 1] == last);
        law_bytes(last.key, prefixed(last.value) + tail);
        law_bytes(last.value, tail);
        if shorter.len() > 0 {
            assert(bytes_less(
                entries[entries.len() - 2].key,
                entries[entries.len() - 1].key,
            ));
        }
        assert(shorter.push(last) =~= entries);
    }
}

/// Sorting keeps the entries and orders them.
pub proof fn law_sorted_entries(entries: Seq<EntryView>)
    requires
        distinct_keys(entries),
    ensures
        ascending(sorted_entries(entries)),
        sorted_entries(entries).to_multiset() == entries.to_multiset(),
        sorted_entries(entries).len() == entries.len(),
{
    lemma_sortable(entries);
    let s = sorted_entries(entries);
    s.to_multiset_ensures();
    entries.to_multiset_ensures();
}

proof fn lemma_sortable(entries: Seq<EntryView>)
    requires
        distinct_keys(entries),
    ensures
        exists|s: Seq<EntryView>| #[trigger]
            ascending(s) && s.to_multiset() == entries.to_multiset(),
    decreases entries.len(),
{
    if entries.len() == 0 {
        assert(ascending(entries));
    } else {
        let shorter = entries.drop_last();
        let last = entries.last();
        assert(distinct_keys(shorter)) by {
            assert forall|x: int, y: int| 0 <= x < y < shorter.len() implies (
            #[trigger] shorter[x]).key != (#[trigger] shorter[y]).key by {
                assert(entries[x].key != entries[y].key);
            }
        }
        lemma_sortable(shorter);
        let s = choose|s: Seq<EntryView>| #[trigger]
            ascending(s) && s.to_multiset() == shorter.to_multiset();
        assert forall|k: int| 0 <= k < s.len() implies (#[trigger] s[k]).key != last.key by {
            assert(s.contains(s[k]));
            lemma_same_members(s, shorter, s[k]);
            let j = choose|j: int| 0 <= j < shorter.len() && shorter[j] == s[k];
            assert(entries[j].key != entries[entries.len() - 1].key);
        }
        let at = lemma_place(s, last, s.len() as int);
        let t = s.insert(at, last);
        vstd::seq_lib::to_multiset_insert(s, at, last);
        shorter.to_multiset_ensures();
        assert(entries =~= shorter.push(last));
        assert(ascending(t)) by {
            assert forall|x: int, y: int| 0 <= x < y < t.len() implies bytes_less(
                (#[trigger] t[x]).key,
                (#[trigger] t[y]).key,
            ) by {
                let x2 = if x < at { x } else { x - 1 };
                let y2 = if y < at { y } else { y - 1 };
                if x != at && y != at {
                    assert(bytes_less(s[x2].key, s[y2].key));
                }
            }
        }
    }
}

proof fn lemma_place(s: Seq<EntryView>, entry: EntryView, to: int) -> (at: int)
    requires
        ascending(s),
        0 <= to <= s.len(),
        forall|k: int| 0 <= k < s.len() ==> (#[trigger] s[k]).key != entry.key,
        forall|k: int| to <= k < s.len() ==> bytes_less(entry.key, (#[trigger] s[k]).key),
    ensures
        0 <= at <= s.len(),
        forall|k: int| 0 <= k < at ==> bytes_less((#[trigger] s[k]).key, entry.key),
        forall|k: int| at <= k < s.len() ==> bytes_less(entry.key, (#[trigger] s[k]).key),
    decreases to,
{
    if to == 0 {
        0
    } else {
        lemma_bytes_less_total(s[to - 1].key, entry.key);
        if bytes_less(entry.key, s[to - 1].key) {
            lemma_place(s, entry, to - 1)
        } else {
            assert forall|k: int| 0 <= k < to implies bytes_less(
                (#[trigger] s[k]).key,
                entry.key,
            ) by {
                if k < to - 1 {
                    assert(bytes_less(s[k].key, s[to - 1].key));
                    lemma_bytes_less_transitive(s[k].key, s[to - 1].key, entry.key);
                }
            }
            to
        }
    }
}

/// Entries that were written read back in the order of their keys.
pub proof fn law_map_reads_back(entries: Seq<EntryView>, max_bytes: nat, max_entries: nat)
    requires
        map_encoding(entries, max_bytes) is Ok,
        entries.len() <= max_entries,
    ensures
        map_decoding(map_encoding(entries, max_bytes)->Ok_0, max_bytes, max_entries) == Ok::<
            Seq<EntryView>,
            WireError,
        >(sorted_entries(entries)),
{
    let sorted = sorted_entries(entries);
    let items = concatenated(sorted, entry_encoder());
    law_sorted_entries(entries);
    lemma_entries_size(sorted);
    law_u32(sorted.len() as u32, items);
    lemma_ascending_reads(sorted, Seq::empty());
    assert(items + Seq::<u8>::empty() =~= items);
}

proof fn lemma_distinct_in_any_order(a: Seq<EntryView>, b: Seq<EntryView>)
    requires
        a.to_multiset() == b.to_multiset(),
        distinct_keys(a),
    ensures
        distinct_keys(b),
{
    assert(a.no_duplicates()) by {
        assert forall|i: int, j: int|
            0 <= i < a.len() && 0 <= j < a.len() && i != j implies a[i] != a[j] by {
            if i < j {
                assert(a[i].key != a[j].key);
            } else {
                assert(a[j].key != a[i].key);
            }
        }
    }
    a.lemma_multiset_has_no_duplicates();
    b.lemma_multiset_has_no_duplicates_conv();
    assert forall|i: int, j: int| 0 <= i < j < b.len() implies (#[trigger] b[i]).key != (
    #[trigger] b[j]).key by {
        lemma_same_members(b, a, b[i]);
        lemma_same_members(b, a, b[j]);
        let x = choose|x: int| 0 <= x < a.len() && a[x] == b[i];
        let y = choose|y: int| 0 <= y < a.len() && a[y] == b[j];
        assert(b[i] != b[j]);
        if x < y {
            assert(a[x].key != a[y].key);
        } else {
            assert(a[y].key != a[x].key);
        }
    }
}

/// The order in which entries or keys are given does not matter. They are refused if a key occurs
/// twice, wherever it stands, and are otherwise written once each, in the order of their keys.
pub proof fn law_order_of_entries_does_not_matter(
    a: Seq<EntryView>,
    b: Seq<EntryView>,
    max_bytes: nat,
)
    requires
        a.to_multiset() == b.to_multiset(),
    ensures
        map_encoding(a, max_bytes) == map_encoding(b, max_bytes),
        keys_encoding(a, max_bytes) == keys_encoding(b, max_bytes),
        !distinct_keys(a) ==> map_encoding(a, max_bytes) is Err && keys_encoding(
            a,
            max_bytes,
        ) is Err,
        map_encoding(a, max_bytes) matches Ok(bytes) ==> bytes == map_bytes(sorted_entries(a))
            && ascending(sorted_entries(a)) && sorted_entries(a).to_multiset() == a.to_multiset(),
{
    a.to_multiset_ensures();
    b.to_multiset_ensures();
    if distinct_keys(a) {
        lemma_distinct_in_any_order(a, b);
        law_sorted_entries(a);
        law_sorted_entries(b);
        lemma_sorted_is_unique(sorted_entries(a), sorted_entries(b));
    } else if distinct_keys(b) {
        lemma_distinct_in_any_order(b, a);
    }
}

proof fn lemma_read_entries_ascend(d: Input, count: nat)
    requires
        get_ascending(d, count) is Ok,
    ensures
        ascending(get_ascending(d, count)->Ok_0.0),
        get_ascending(d, count)->Ok_0.0.len() == count,
    decreases count,
{
    if count > 0 {
        lemma_read_entries_ascend(d, (count - 1) as nat);
        let before = get_ascending(d, (count - 1) as nat)->Ok_0.0;
        let after = get_ascending(d, count)->Ok_0.0;
        assert forall|i: int, j: int| 0 <= i < j < after.len() implies bytes_less(
            (#[trigger] after[i]).key,
            (#[trigger] after[j]).key,
        ) by {
            if j < before.len() {
                assert(bytes_less(before[i].key, before[j].key));
            } else if i < before.len() - 1 {
                assert(bytes_less(before[i].key, before.last().key));
                lemma_bytes_less_transitive(before[i].key, before.last().key, after[j].key);
            }
        }
    }
}

/// Entries are read only if each key comes before the next, so that no key is read twice.
pub proof fn law_read_keys_ascend(data: Seq<u8>, max_bytes: nat, max_entries: nat)
    ensures
        map_decoding(data, max_bytes, max_entries) matches Ok(entries) ==> ascending(entries)
            && entries.len() <= max_entries,
        page_decoding(data, max_bytes, max_entries) matches Ok(page) ==> ascending(page.0)
            && page.0.len() <= max_entries,
{
    let d = limited_input(data, max_bytes);
    if get_entries(d, max_entries) is Ok {
        let (count, d1) = get_u32(d);
        lemma_read_entries_ascend(d1, count as nat);
    }
}

// ---------------------------------------------------------------------------
// Views
// ---------------------------------------------------------------------------

/// What stands for a value of this type has its fields.
pub proof fn law_entry_has_its_fields(x: Entry)
    ensures
        x@.key == x.key@,
        x@.value == x.value@,
{
}

/// What stands for a list has what stands for each of its items, in order.
pub proof fn law_entries_view_keeps_order(entries: Seq<Entry>, i: int)
    requires
        0 <= i < entries.len(),
    ensures
        entries_view(entries).len() == entries.len(),
        entries_view(entries)[i] == entries[i]@,
{
}

} // verus!
