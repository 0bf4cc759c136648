//! The store snapshot: an ordered sequence of key-value records, with
//! the three mutations the commands need.  A snapshot keeps at most
//! one record per key once `set_record` or `delete_record` has run,
//! but a freshly loaded file may hold duplicates, and every operation
//! handles them.

use vstd::prelude::*;

verus! {

/// One key-value pair.  Keys are compared byte for byte.
pub struct Record {
    pub key: Vec<u8>,
    pub value: Vec<u8>,
}

/// The mathematical shape of a record: its two byte strings.
pub struct RecordView {
    pub key: Seq<u8>,
    pub value: Seq<u8>,
}

impl View for Record {
    type V = RecordView;

    open spec fn view(&self) -> RecordView {
        RecordView { key: self.key@, value: self.value@ }
    }
}

/// The views of a sequence of records.
pub open spec fn views(s: Seq<Record>) -> Seq<RecordView> {
    s.map_values(|r: Record| r@)
}

/// Whether some record in `s` has key `k`.
pub open spec fn has_key(s: Seq<RecordView>, k: Seq<u8>) -> bool {
    exists|i: int| 0 <= i < s.len() && s[i].key == k
}

/// How many records in `s` have key `k`.
pub open spec fn count_key(s: Seq<RecordView>, k: Seq<u8>) -> nat
    decreases s.len(),
{
    if s.len() == 0 {
        0
    } else {
        (if s.first().key == k {
            1nat
        } else {
            0nat
        }) + count_key(s.drop_first(), k)
    }
}

/// `s` without every record whose key is `k`; the order of the rest
/// is kept.
pub open spec fn remove_key(s: Seq<RecordView>, k: Seq<u8>) -> Seq<RecordView>
    decreases s.len(),
{
    if s.len() == 0 {
        Seq::empty()
    } else if s.first().key == k {
        remove_key(s.drop_first(), k)
    } else {
        seq![s.first()] + remove_key(s.drop_first(), k)
    }
}

/// The value of the first record in `s` whose key is `k`, if any.
pub open spec fn lookup(s: Seq<RecordView>, k: Seq<u8>) -> Option<Seq<u8>>
    decreases s.len(),
{
    if s.len() == 0 {
        None
    } else if s.first().key == k {
        Some(s.first().value)
    } else {
        lookup(s.drop_first(), k)
    }
}

/// The snapshot after `set k v`: every old record for `k` removed,
/// and the new pair appended at the end.
pub open spec fn set_result(s: Seq<RecordView>, k: Seq<u8>, v: Seq<u8>) -> Seq<RecordView> {
    remove_key(s, k).push(RecordView { key: k, value: v })
}

/// `remove_key` distributes over concatenation.
pub proof fn lemma_remove_key_add(a: Seq<RecordView>, b: Seq<RecordView>, k: Seq<u8>)
    ensures
        remove_key(a + b, k) == remove_key(a, k) + remove_key(b, k),
    decreases a.len(),
{
    if a.len() == 0 {
        assert(a + b =~= b);
        assert(remove_key(a, k) + remove_key(b, k) =~= remove_key(b, k));
    } else {
        assert((a + b).first() == a.first());
        assert((a + b).drop_first() =~= a.drop_first() + b);
        lemma_remove_key_add(a.drop_first(), b, k);
        if a.first().key == k {
        } else {
            assert(seq![a.first()] + (remove_key(a.drop_first(), k) + remove_key(b, k))
                =~= (seq![a.first()] + remove_key(a.drop_first(), k)) + remove_key(b, k));
        }
    }
}

/// A single record survives `remove_key` exactly when its key differs.
pub proof fn lemma_remove_key_one(r: RecordView, k: Seq<u8>)
    ensures
        r.key == k ==> remove_key(seq![r], k) == Seq::<RecordView>::empty(),
        r.key != k ==> remove_key(seq![r], k) == seq![r],
{
    assert(seq![r].drop_first() =~= Seq::<RecordView>::empty());
    if r.key != k {
        assert(seq![seq![r].first()] + remove_key(seq![r].drop_first(), k) =~= seq![r]);
    }
}

/// When no record has key `k`, removal changes nothing.
pub proof fn lemma_remove_key_absent(s: Seq<RecordView>, k: Seq<u8>)
    requires
        !has_key(s, k),
    ensures
        remove_key(s, k) == s,
    decreases s.len(),
{
    if s.len() > 0 {
        assert(s[0].key != k);
        assert(forall|i: int|
            0 <= i < s.drop_first().len() ==> s.drop_first()[i] == s[i + 1]);
        lemma_remove_key_absent(s.drop_first(), k);
        assert(seq![s.first()] + s.drop_first() =~= s);
    }
}

/// Removal leaves no record with the removed key behind.
pub proof fn lemma_remove_key_clears(s: Seq<RecordView>, k: Seq<u8>)
    ensures
        !has_key(remove_key(s, k), k),
        count_key(remove_key(s, k), k) == 0,
    decreases s.len(),
{
    if s.len() == 0 {
    } else if s.first().key == k {
        lemma_remove_key_clears(s.drop_first(), k);
    } else {
        lemma_remove_key_clears(s.drop_first(), k);
        let rest = remove_key(s.drop_first(), k);
        let whole = seq![s.first()] + rest;
        assert(whole.first() == s.first());
        assert(whole.drop_first() =~= rest);
        assert(forall|i: int| 0 <= i < whole.len() ==> whole[i].key != k) by {
            assert(forall|i: int| 1 <= i < whole.len() ==> whole[i] == rest[i - 1]);
        }
    }
}

/// Removing a key twice is the same as removing it once.
pub proof fn lemma_remove_key_idempotent(s: Seq<RecordView>, k: Seq<u8>)
    ensures
        remove_key(remove_key(s, k), k) == remove_key(s, k),
{
    lemma_remove_key_clears(s, k);
    lemma_remove_key_absent(remove_key(s, k), k);
}

/// A key is present exactly when at least one record counts for it,
/// and exactly when `lookup` finds a value.
pub proof fn lemma_has_key_count(s: Seq<RecordView>, k: Seq<u8>)
    ensures
        has_key(s, k) <==> count_key(s, k) > 0,
        has_key(s, k) <==> lookup(s, k) is Some,
    decreases s.len(),
{
    if s.len() > 0 {
        lemma_has_key_count(s.drop_first(), k);
        assert(forall|i: int|
            0 <= i < s.drop_first().len() ==> s.drop_first()[i] == s[i + 1]);
        if s.first().key == k {
            assert(has_key(s, k));
        } else {
            if has_key(s, k) {
                let i = choose|i: int| 0 <= i < s.len() && s[i].key == k;
                assert(i >= 1);
                assert(s.drop_first()[i - 1].key == k);
                assert(has_key(s.drop_first(), k));
            }
            if has_key(s.drop_first(), k) {
                let j = choose|j: int| 0 <= j < s.drop_first().len() && s.drop_first()[j].key == k;
                assert(s[j + 1].key == k);
            }
        }
    }
}

/// Counting distributes over concatenation.
pub proof fn lemma_count_key_add(a: Seq<RecordView>, b: Seq<RecordView>, k: Seq<u8>)
    ensures
        count_key(a + b, k) == count_key(a, k) + count_key(b, k),
    decreases a.len(),
{
    if a.len() == 0 {
        assert(a + b =~= b);
    } else {
        assert((a + b).first() == a.first());
        assert((a + b).drop_first() =~= a.drop_first() + b);
        lemma_count_key_add(a.drop_first(), b, k);
    }
}

/// After `set k v` the snapshot holds exactly one record for `k`, it
/// sits at the end, and it carries `v`; other keys are untouched by
/// the count.
pub proof fn lemma_set_shape(s: Seq<RecordView>, k: Seq<u8>, v: Seq<u8>)
    ensures
        count_key(set_result(s, k, v), k) == 1,
        set_result(s, k, v).last() == (RecordView { key: k, value: v }),
        lookup(set_result(s, k, v), k) == Some(v),
{
    let r = RecordView { key: k, value: v };
    let removed = remove_key(s, k);
    lemma_remove_key_clears(s, k);
    assert(removed.push(r) =~= removed + seq![r]);
    lemma_count_key_add(removed, seq![r], k);
    assert(count_key(seq![r], k) == 1) by {
        assert(seq![r].drop_first() =~= Seq::<RecordView>::empty());
        assert(count_key(Seq::<RecordView>::empty(), k) == 0);
        assert(seq![r].first() == r);
    }
    lemma_lookup_after(removed, seq![r], k);
    assert(lookup(seq![r], k) == Some(v)) by {
        assert(seq![r].first() == r);
    }
    lemma_has_key_count(removed, k);
}

/// When no record of `a` has key `k`, `lookup` on `a + b` looks in `b`.
pub proof fn lemma_lookup_after(a: Seq<RecordView>, b: Seq<RecordView>, k: Seq<u8>)
    requires
        !has_key(a, k),
    ensures
        lookup(a + b, k) == lookup(b, k),
    decreases a.len(),
{
    if a.len() == 0 {
        assert(a + b =~= b);
    } else {
        assert(a[0].key != k);
        assert((a + b).first() == a.first());
        assert((a + b).drop_first() =~= a.drop_first() + b);
        assert(forall|i: int|
            0 <= i < a.drop_first().len() ==> a.drop_first()[i] == a[i + 1]);
        lemma_lookup_after(a.drop_first(), b, k);
    }
}

/// Setting the same key and value twice gives the same snapshot as
/// setting it once.
pub proof fn lemma_set_idempotent(s: Seq<RecordView>, k: Seq<u8>, v: Seq<u8>)
    ensures
        set_result(set_result(s, k, v), k, v) == set_result(s, k, v),
{
    lemma_set_overwrite(s, k, v, v);
}

/// Setting a key twice keeps only the second value: the first `set`
/// leaves no trace.
pub proof fn lemma_set_overwrite(s: Seq<RecordView>, k: Seq<u8>, v1: Seq<u8>, v2: Seq<u8>)
    ensures
        set_result(set_result(s, k, v1), k, v2) == set_result(s, k, v2),
{
    let r1 = RecordView { key: k, value: v1 };
    let removed = remove_key(s, k);
    assert(removed.push(r1) =~= removed + seq![r1]);
    lemma_remove_key_add(removed, seq![r1], k);
    lemma_remove_key_one(r1, k);
    lemma_remove_key_idempotent(s, k);
    assert(remove_key(removed, k) + Seq::<RecordView>::empty() =~= remove_key(removed, k));
    assert(remove_key(set_result(s, k, v1), k) == removed);
}

/// Compares two byte strings for equality.
pub fn bytes_eq(a: &Vec<u8>, b: &Vec<u8>) -> (r: bool)
    ensures
        r == (a@ == b@),
{
    if a.len() != b.len() {
        return false;
    }
    let n = a.len();
    let mut i: usize = 0;
    while i < n
        invariant
            0 <= i <= n,
            n == a@.len() == b@.len(),
            forall|j: int| 0 <= j < i ==> a@[j] == b@[j],
        decreases n - i,
    {
        if a[i] != b[i] {
            return false;
        }
        i = i + 1;
    }
    proof {
        assert(a@ =~= b@);
    }
    true
}

/// Applies `set k v` to a loaded snapshot: removes every record with
/// key `k`, then appends the new pair.
pub fn set_record(records: Vec<Record>, key: Vec<u8>, value: Vec<u8>) -> (r: Vec<Record>)
    ensures
        views(r@) == set_result(views(records@), key@, value@),
{
    let ghost orig = views(records@);
    let mut input = records;
    let mut out: Vec<Record> = Vec::new();
    while input.len() > 0
        invariant
            remove_key(orig, key@) == views(out@) + remove_key(views(input@), key@),
        decreases input.len(),
    {
        let ghost in_before = views(input@);
        let r = input.remove(0);
        proof {
            assert(in_before.first() == r@);
            assert(views(input@) =~= in_before.drop_first());
        }
        if !bytes_eq(&r.key, &key) {
            let ghost out_before = views(out@);
            out.push(r);
            proof {
                assert(views(out@) =~= out_before.push(r@));
                assert(out_before.push(r@) + remove_key(views(input@), key@)
                    =~= out_before + (seq![r@] + remove_key(views(input@), key@)));
            }
        }
    }
    proof {
        assert(views(input@) =~= Seq::<RecordView>::empty());
        assert(views(out@) + Seq::<RecordView>::empty() =~= views(out@));
    }
    let mut out = out;
    let ghost trimmed = views(out@);
    out.push(Record { key, value });
    proof {
        assert(views(out@) =~= trimmed.push(RecordView { key: key@, value: value@ }));
    }
    out
}

/// Finds the value of the first record with the given key.
pub fn get_record(records: &Vec<Record>, key: &Vec<u8>) -> (r: Option<Vec<u8>>)
    ensures
        match r {
            Some(v) => lookup(views(records@), key@) == Some(v@),
            None => lookup(views(records@), key@) is None,
        },
{
    let n = records.len();
    let mut i: usize = 0;
    proof {
        assert(views(records@).skip(0) =~= views(records@));
    }
    while i < n
        invariant
            0 <= i <= n,
            n == records@.len(),
            lookup(views(records@), key@) == lookup(views(records@).skip(i as int), key@),
        decreases n - i,
    {
        let ghost tail = views(records@).skip(i as int);
        proof {
            assert(tail.first() == views(records@)[i as int]);
            assert(tail.drop_first() =~= views(records@).skip(i + 1));
        }
        if bytes_eq(&records[i].key, key) {
            let found = &records[i].value;
            let v = crate::bytes::copy_range(found, 0, found.len());
            proof {
                assert(found@.subrange(0, found@.len() as int) =~= found@);
            }
            return Some(v);
        }
        i = i + 1;
    }
    proof {
        assert(views(records@).skip(n as int) =~= Seq::<RecordView>::empty());
    }
    None
}

/// Applies `delete k`: removes every record with key `k` and reports
/// whether any was there.
pub fn delete_record(records: Vec<Record>, key: &Vec<u8>) -> (r: (Vec<Record>, bool))
    ensures
        views(r.0@) == remove_key(views(records@), key@),
        r.1 == has_key(views(records@), key@),
{
    let ghost orig = views(records@);
    let mut input = records;
    let mut out: Vec<Record> = Vec::new();
    let mut found = false;
    while input.len() > 0
        invariant
            remove_key(orig, key@) == views(out@) + remove_key(views(input@), key@),
            has_key(orig, key@) <==> found || has_key(views(input@), key@),
        decreases input.len(),
    {
        let ghost in_before = views(input@);
        let ghost found_before = found;
        let r = input.remove(0);
        proof {
            assert(in_before.first() == r@);
            assert(views(input@) =~= in_before.drop_first());
            assert(forall|i: int|
                0 <= i < in_before.drop_first().len()
                    ==> in_before.drop_first()[i] == in_before[i + 1]);
        }
        if bytes_eq(&r.key, key) {
            found = true;
            proof {
                assert(in_before[0].key == key@);
            }
        } else {
            let ghost out_before = views(out@);
            out.push(r);
            proof {
                assert(views(out@) =~= out_before.push(r@));
                assert(out_before.push(r@) + remove_key(views(input@), key@)
                    =~= out_before + (seq![r@] + remove_key(views(input@), key@)));
                assert(has_key(in_before, key@) <==> has_key(in_before.drop_first(), key@)) by {
                    if has_key(in_before, key@) {
                        let i = choose|i: int|
                            0 <= i < in_before.len() && in_before[i].key == key@;
                        assert(i >= 1);
                        assert(in_before.drop_first()[i - 1].key == key@);
                    }
                }
            }
        }
    }
    proof {
        assert(views(input@) =~= Seq::<RecordView>::empty());
        assert(views(out@) + Seq::<RecordView>::empty() =~= views(out@));
        assert(!has_key(Seq::<RecordView>::empty(), key@));
    }
    (out, found)
}

} // verus!
