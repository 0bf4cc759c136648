//! The on-disk line format: one record per line, `key,value`, the
//! first comma on a line separating key from value, each line ended
//! by a line feed.  Loading trims each line, skips blank lines, and
//! silently skips lines without a comma; a value keeps any further
//! commas verbatim.  Saving rewrites the whole content.

use vstd::prelude::*;

use crate::bytes::{
    append_bytes, copy_range, is_ws, lemma_trim_id, lemma_trim_keeps_absence, lemma_trim_shape,
    trim, trim_bytes,
};
use crate::store::{
    count_key, lemma_set_overwrite, lemma_set_shape, lookup, remove_key, set_result, views, Record,
    RecordView,
};

verus! {

/// The index of the first occurrence of `b` in `s`, or `s.len()`
/// when `s` does not contain `b`.
pub open spec fn first_at(s: Seq<u8>, b: u8) -> nat
    decreases s.len(),
{
    if s.len() == 0 {
        0
    } else if s[0] == b {
        0
    } else {
        1 + first_at(s.drop_first(), b)
    }
}

/// A scan that saw no `b` before `i`, and `b` or the end at `i`, has
/// found `first_at`.
pub proof fn lemma_first_at_found(s: Seq<u8>, b: u8, i: int)
    requires
        0 <= i <= s.len(),
        forall|j: int| 0 <= j < i ==> s[j] != b,
        i < s.len() ==> s[i] == b,
    ensures
        first_at(s, b) == i,
    decreases i,
{
    if i == 0 {
    } else {
        assert(s[0] != b);
        assert(forall|j: int|
            0 <= j < s.drop_first().len() ==> s.drop_first()[j] == s[j + 1]);
        lemma_first_at_found(s.drop_first(), b, i - 1);
    }
}

/// What one trimmed line contributes: nothing for a blank or
/// comma-less line, else the key before the first comma and the
/// value after it.
pub open spec fn parse_line(line: Seq<u8>) -> Option<RecordView> {
    let t = trim(line);
    if t.len() == 0 {
        None
    } else {
        let i = first_at(t, 44);
        if i >= t.len() {
            None
        } else {
            Some(RecordView { key: t.take(i as int), value: t.skip(i as int + 1) })
        }
    }
}

/// The lines of `s`, split at each line feed; a final fragment
/// without a line feed is a line of its own, and empty content has
/// no lines.
pub open spec fn split_lines(s: Seq<u8>) -> Seq<Seq<u8>>
    decreases s.len(),
{
    if s.len() == 0 {
        Seq::empty()
    } else {
        let i = first_at(s, 10);
        if i >= s.len() {
            seq![s]
        } else {
            seq![s.take(i as int)] + split_lines(s.skip(i as int + 1))
        }
    }
}

/// The records that a sequence of lines yields, in line order.
pub open spec fn records_of_lines(ls: Seq<Seq<u8>>) -> Seq<RecordView>
    decreases ls.len(),
{
    if ls.len() == 0 {
        Seq::empty()
    } else {
        match parse_line(ls.first()) {
            Some(r) => seq![r] + records_of_lines(ls.drop_first()),
            None => records_of_lines(ls.drop_first()),
        }
    }
}

/// The records that loading the given file content yields.
pub open spec fn load_result(content: Seq<u8>) -> Seq<RecordView> {
    records_of_lines(split_lines(content))
}

/// One record's line: `key,value` and a line feed.
pub open spec fn encode_record(r: RecordView) -> Seq<u8> {
    r.key + seq![44u8] + r.value + seq![10u8]
}

/// The file content that saving the given records writes.
pub open spec fn encode_records(s: Seq<RecordView>) -> Seq<u8>
    decreases s.len(),
{
    if s.len() == 0 {
        Seq::empty()
    } else {
        encode_record(s.first()) + encode_records(s.drop_first())
    }
}

/// Encoding distributes over concatenation.
pub proof fn lemma_encode_records_add(a: Seq<RecordView>, b: Seq<RecordView>)
    ensures
        encode_records(a + b) == encode_records(a) + encode_records(b),
    decreases a.len(),
{
    if a.len() == 0 {
        assert(a + b =~= b);
        assert(encode_records(a) + encode_records(b) =~= encode_records(b));
    } else {
        assert((a + b).first() == a.first());
        assert((a + b).drop_first() =~= a.drop_first() + b);
        lemma_encode_records_add(a.drop_first(), b);
        assert(encode_record(a.first()) + (encode_records(a.drop_first()) + encode_records(b))
            =~= (encode_record(a.first()) + encode_records(a.drop_first())) + encode_records(b));
    }
}

/// Prepending one line to a line list prepends its record, if it has
/// one.
proof fn lemma_records_of_lines_cons(l: Seq<u8>, rest: Seq<Seq<u8>>)
    ensures
        records_of_lines(seq![l] + rest) == match parse_line(l) {
            Some(r) => seq![r] + records_of_lines(rest),
            None => records_of_lines(rest),
        },
{
    let whole = seq![l] + rest;
    assert(whole.len() > 0);
    assert(whole.first() == l);
    assert(whole.drop_first() =~= rest);
}

/// Parses one line of the backing file, already split from the
/// content: trims it, skips it when blank or comma-less, else splits
/// it at its first comma.
pub fn parse_line_bytes(line: &Vec<u8>) -> (r: Option<Record>)
    ensures
        match r {
            Some(rec) => parse_line(line@) == Some(rec@),
            None => parse_line(line@) is None,
        },
{
    let t = trim_bytes(line);
    let n = t.len();
    if n == 0 {
        return None;
    }
    let mut i: usize = 0;
    while i < n && t[i] != 44
        invariant
            0 <= i <= n,
            n == t@.len(),
            forall|j: int| 0 <= j < i ==> t@[j] != 44,
        decreases n - i,
    {
        i = i + 1;
    }
    proof {
        lemma_first_at_found(t@, 44, i as int);
    }
    if i == n {
        return None;
    }
    let key = copy_range(&t, 0, i);
    let value = copy_range(&t, i + 1, n);
    proof {
        assert(t@.subrange(0, i as int) =~= t@.take(i as int));
        assert(t@.subrange(i + 1, n as int) =~= t@.skip(i + 1));
    }
    Some(Record { key, value })
}

/// Loads the records held in the full content of the backing file:
/// its lines in order, each contributing through `parse_line_bytes`.
pub fn load_records(content: &Vec<u8>) -> (r: Vec<Record>)
    ensures
        views(r@) == load_result(content@),
{
    let n = content.len();
    let mut out: Vec<Record> = Vec::new();
    let mut start: usize = 0;
    proof {
        assert(views(out@) =~= Seq::<RecordView>::empty());
        assert(content@.skip(0) =~= content@);
        assert(Seq::<RecordView>::empty() + load_result(content@) =~= load_result(content@));
    }
    while start < n
        invariant
            0 <= start <= n,
            n == content@.len(),
            load_result(content@) == views(out@) + load_result(content@.skip(start as int)),
        decreases n - start,
    {
        let ghost rest = content@.skip(start as int);
        let mut k: usize = start;
        while k < n && content[k] != 10
            invariant
                start <= k <= n,
                n == content@.len(),
                forall|j: int| start <= j < k ==> content@[j] != 10,
            decreases n - k,
        {
            k = k + 1;
        }
        proof {
            assert(forall|j: int| 0 <= j < k - start ==> rest[j] != 10);
            lemma_first_at_found(rest, 10, k - start);
        }
        let line = copy_range(content, start, k);
        proof {
            assert(line@ =~= rest.take(k - start));
            if k < n {
                assert(content@.skip(k + 1) =~= rest.skip(k - start + 1));
            } else {
                assert(rest.take(k - start) =~= rest);
            }
        }
        let parsed = parse_line_bytes(&line);
        let ghost out_before = views(out@);
        match parsed {
            Some(rec) => {
                out.push(rec);
                proof {
                    assert(views(out@) =~= out_before.push(rec@));
                }
            },
            None => {},
        }
        let ghost next = if k < n {
            content@.skip(k + 1)
        } else {
            Seq::<u8>::empty()
        };
        proof {
            if k < n {
                assert(split_lines(rest) == seq![line@] + split_lines(next));
            } else {
                assert(split_lines(rest) == seq![line@]) by {
                    assert(rest.len() > 0);
                }
                assert(seq![line@] =~= seq![line@] + Seq::<Seq<u8>>::empty());
                assert(split_lines(Seq::<u8>::empty()) =~= Seq::<Seq<u8>>::empty());
                assert(split_lines(rest) == seq![line@] + split_lines(Seq::<u8>::empty()));
            }
            lemma_records_of_lines_cons(line@, split_lines(next));
            match parse_line(line@) {
                Some(rv) => {
                    assert(out_before.push(rv) + load_result(next)
                        =~= out_before + (seq![rv] + load_result(next)));
                },
                None => {},
            }
        }
        if k < n {
            start = k + 1;
        } else {
            start = n;
            proof {
                assert(content@.skip(n as int) =~= Seq::<u8>::empty());
            }
        }
    }
    proof {
        assert(content@.skip(n as int) =~= Seq::<u8>::empty());
        assert(views(out@) + Seq::<RecordView>::empty() =~= views(out@));
    }
    out
}

/// Renders the full new content of the backing file: one line per
/// record, in order.
pub fn save_records(records: &Vec<Record>) -> (r: Vec<u8>)
    ensures
        r@ == encode_records(views(records@)),
{
    let n = records.len();
    let mut out: Vec<u8> = Vec::new();
    let mut i: usize = 0;
    proof {
        assert(views(records@).take(0) =~= Seq::<RecordView>::empty());
        assert(out@ =~= Seq::<u8>::empty());
    }
    while i < n
        invariant
            0 <= i <= n,
            n == records@.len(),
            out@ == encode_records(views(records@).take(i as int)),
        decreases n - i,
    {
        let ghost done = views(records@).take(i as int);
        let ghost rv = views(records@)[i as int];
        append_bytes(&mut out, &records[i].key);
        out.push(44);
        append_bytes(&mut out, &records[i].value);
        out.push(10);
        proof {
            assert(out@ =~= encode_records(done) + encode_record(rv));
            assert(views(records@).take(i + 1) =~= done + seq![rv]);
            lemma_encode_records_add(done, seq![rv]);
            assert(encode_records(seq![rv]) == encode_record(rv)) by {
                assert(seq![rv].first() == rv);
                assert(seq![rv].drop_first() =~= Seq::<RecordView>::empty());
                assert(encode_records(Seq::<RecordView>::empty()) =~= Seq::<u8>::empty());
                assert(encode_record(rv) + Seq::<u8>::empty() =~= encode_record(rv));
            }
        }
        i = i + 1;
    }
    proof {
        assert(views(records@).take(n as int) =~= views(records@));
    }
    out
}

/// A record that one saved line reproduces exactly: no line feed
/// anywhere, no comma in the key, no leading whitespace on the key,
/// and no trailing whitespace on the value.
pub open spec fn round_trippable(r: RecordView) -> bool {
    &&& forall|i: int| 0 <= i < r.key.len() ==> r.key[i] != 10 && r.key[i] != 44
    &&& forall|i: int| 0 <= i < r.value.len() ==> r.value[i] != 10
    &&& r.key.len() > 0 ==> !is_ws(r.key[0])
    &&& r.value.len() > 0 ==> !is_ws(r.value.last())
}

/// Saving a sequence of records and loading the result yields that
/// sequence again, order and content preserved, whenever each record
/// is `round_trippable`.
pub proof fn lemma_save_load_round_trip(rs: Seq<RecordView>)
    requires
        forall|i: int| 0 <= i < rs.len() ==> round_trippable(#[trigger] rs[i]),
    ensures
        load_result(encode_records(rs)) == rs,
    decreases rs.len(),
{
    if rs.len() == 0 {
        assert(split_lines(Seq::<u8>::empty()) =~= Seq::<Seq<u8>>::empty());
    } else {
        let r = rs.first();
        assert(r == rs[0]);
        let line = r.key + seq![44u8] + r.value;
        let tail = encode_records(rs.drop_first());
        let total = encode_records(rs);
        assert(total =~= line + seq![10u8] + tail);
        assert(forall|i: int| 0 <= i < line.len() ==> line[i] != 10) by {
            assert(forall|i: int| 0 <= i < r.key.len() ==> line[i] == r.key[i]);
            assert(line[r.key.len() as int] == 44);
            assert(forall|i: int|
                r.key.len() + 1 <= i < line.len() ==> line[i] == r.value[i - r.key.len() - 1]);
        }
        assert(forall|i: int| 0 <= i < line.len() ==> total[i] == line[i]);
        assert(total[line.len() as int] == 10);
        lemma_first_at_found(total, 10, line.len() as int);
        assert(total.len() > line.len());
        assert(split_lines(total) == seq![total.take(line.len() as int)] + split_lines(
            total.skip(line.len() as int + 1),
        ));
        assert(total.take(line.len() as int) =~= line);
        assert(total.skip(line.len() as int + 1) =~= tail);

        assert(parse_line(line) == Some(r)) by {
            assert(line.len() > 0);
            assert(!is_ws(line[0])) by {
                if r.key.len() > 0 {
                    assert(line[0] == r.key[0]);
                } else {
                    assert(line[0] == 44);
                }
            }
            assert(!is_ws(line.last())) by {
                if r.value.len() > 0 {
                    assert(line.last() == r.value.last());
                } else {
                    assert(line.last() == 44);
                }
            }
            lemma_trim_id(line);
            assert(forall|j: int| 0 <= j < r.key.len() ==> line[j] != 44);
            lemma_first_at_found(line, 44, r.key.len() as int);
            assert(line.take(r.key.len() as int) =~= r.key);
            assert(line.skip(r.key.len() as int + 1) =~= r.value);
        }

        lemma_records_of_lines_cons(line, split_lines(tail));
        assert(forall|i: int|
            0 <= i < rs.drop_first().len() ==> rs.drop_first()[i] == rs[i + 1]);
        lemma_save_load_round_trip(rs.drop_first());
        assert(seq![r] + rs.drop_first() =~= rs);
    }
}

/// No occurrence of `b` stands before `first_at`, and `b` stands at
/// `first_at` when it is inside `s`.
pub proof fn lemma_first_at_props(s: Seq<u8>, b: u8)
    ensures
        first_at(s, b) <= s.len(),
        forall|j: int| 0 <= j < first_at(s, b) ==> s[j] != b,
        first_at(s, b) < s.len() ==> s[first_at(s, b) as int] == b,
    decreases s.len(),
{
    if s.len() > 0 && s[0] != b {
        lemma_first_at_props(s.drop_first(), b);
        assert(forall|j: int| 1 <= j < first_at(s, b) ==> #[trigger] s[j] != b) by {
            assert(forall|j: int| 1 <= j < s.len() ==> #[trigger] s[j] == s.drop_first()[j - 1]);
        }
    }
}

/// Whatever a line without line feeds parses to is round-trippable.
proof fn lemma_parse_line_trippable(line: Seq<u8>)
    requires
        forall|i: int| 0 <= i < line.len() ==> line[i] != 10,
    ensures
        parse_line(line) is Some ==> round_trippable(parse_line(line)->Some_0),
{
    let t = trim(line);
    lemma_trim_keeps_absence(line, 10);
    lemma_trim_shape(line);
    if t.len() > 0 {
        let i = first_at(t, 44);
        lemma_first_at_props(t, 44);
        if i < t.len() {
            let key = t.take(i as int);
            let value = t.skip(i as int + 1);
            assert(forall|j: int| 0 <= j < key.len() ==> key[j] != 10 && key[j] != 44);
            assert(forall|j: int| 0 <= j < value.len() ==> value[j] != 10) by {
                assert(forall|j: int| 0 <= j < value.len() ==> value[j] == t[i + 1 + j]);
            }
            if key.len() > 0 {
                assert(key[0] == t[0]);
            }
            if value.len() > 0 {
                assert(value.last() == t.last());
            }
        }
    }
}

/// No line of `split_lines` holds a line feed.
proof fn lemma_split_lines_no_nl(s: Seq<u8>)
    ensures
        forall|w: int, j: int|
            0 <= w < split_lines(s).len() && 0 <= j < split_lines(s)[w].len()
                ==> #[trigger] split_lines(s)[w][j] != 10,
    decreases s.len(),
{
    if s.len() > 0 {
        let i = first_at(s, 10);
        lemma_first_at_props(s, 10);
        if i >= s.len() {
            assert(split_lines(s) == seq![s]);
            assert(split_lines(s)[0] == s);
        } else {
            lemma_split_lines_no_nl(s.skip(i as int + 1));
            assert(split_lines(s) == seq![s.take(i as int)] + split_lines(s.skip(i as int + 1)));
            assert(split_lines(s)[0] == s.take(i as int));
            assert(forall|j: int| 0 <= j < i ==> s.take(i as int)[j] != 10);
            assert(forall|w: int|
                1 <= w < split_lines(s).len()
                    ==> #[trigger] split_lines(s)[w] == split_lines(s.skip(i as int + 1))[w - 1]);
        }
    }
}

/// Every record of a list of line-feed-free lines is round-trippable.
proof fn lemma_records_of_lines_trippable(ls: Seq<Seq<u8>>)
    requires
        forall|w: int, j: int|
            0 <= w < ls.len() && 0 <= j < ls[w].len() ==> #[trigger] ls[w][j] != 10,
    ensures
        forall|i: int|
            0 <= i < records_of_lines(ls).len()
                ==> round_trippable(#[trigger] records_of_lines(ls)[i]),
    decreases ls.len(),
{
    if ls.len() > 0 {
        assert(ls.first() == ls[0]);
        assert(forall|j: int| 0 <= j < ls[0].len() ==> ls[0][j] != 10);
        lemma_parse_line_trippable(ls.first());
        assert(forall|w: int, j: int|
            0 <= w < ls.drop_first().len() && 0 <= j < ls.drop_first()[w].len()
                ==> #[trigger] ls.drop_first()[w][j] != 10) by {
            assert(forall|w: int|
                0 <= w < ls.drop_first().len() ==> #[trigger] ls.drop_first()[w] == ls[w + 1]);
        }
        lemma_records_of_lines_trippable(ls.drop_first());
        match parse_line(ls.first()) {
            Some(r) => {
                assert(records_of_lines(ls) == seq![r] + records_of_lines(ls.drop_first()));
                assert(records_of_lines(ls)[0] == r);
                assert(forall|i: int|
                    1 <= i < records_of_lines(ls).len()
                        ==> #[trigger] records_of_lines(ls)[i]
                        == records_of_lines(ls.drop_first())[i - 1]);
            },
            None => {
                assert(records_of_lines(ls) == records_of_lines(ls.drop_first()));
            },
        }
    }
}

/// Every loaded record is round-trippable: saving what was loaded
/// reproduces it.
pub proof fn lemma_load_round_trippable(content: Seq<u8>)
    ensures
        forall|i: int|
            0 <= i < load_result(content).len()
                ==> round_trippable(#[trigger] load_result(content)[i]),
{
    lemma_split_lines_no_nl(content);
    lemma_records_of_lines_trippable(split_lines(content));
}

/// Removal keeps every record of a round-trippable snapshot
/// round-trippable.
proof fn lemma_remove_key_trippable(s: Seq<RecordView>, k: Seq<u8>)
    requires
        forall|i: int| 0 <= i < s.len() ==> round_trippable(#[trigger] s[i]),
    ensures
        forall|i: int|
            0 <= i < remove_key(s, k).len() ==> round_trippable(#[trigger] remove_key(s, k)[i]),
    decreases s.len(),
{
    if s.len() > 0 {
        assert(forall|i: int|
            0 <= i < s.drop_first().len() ==> round_trippable(#[trigger] s.drop_first()[i])) by {
            assert(forall|i: int|
                0 <= i < s.drop_first().len() ==> #[trigger] s.drop_first()[i] == s[i + 1]);
        }
        lemma_remove_key_trippable(s.drop_first(), k);
        if s.first().key == k {
            assert(remove_key(s, k) == remove_key(s.drop_first(), k));
        } else {
            let rest = remove_key(s.drop_first(), k);
            assert(remove_key(s, k) == seq![s.first()] + rest);
            assert(remove_key(s, k)[0] == s.first());
            assert(forall|i: int|
                1 <= i < remove_key(s, k).len() ==> #[trigger] remove_key(s, k)[i] == rest[i - 1]);
        }
    }
}

/// A persisted `set` survives reload: saving the snapshot after
/// `set k v` and loading it back yields that snapshot, as long as the
/// earlier records are round-trippable and so is the new pair.
pub proof fn lemma_persisted_set(s: Seq<RecordView>, k: Seq<u8>, v: Seq<u8>)
    requires
        forall|i: int| 0 <= i < s.len() ==> round_trippable(#[trigger] s[i]),
        round_trippable(RecordView { key: k, value: v }),
    ensures
        load_result(encode_records(set_result(s, k, v))) == set_result(s, k, v),
        count_key(load_result(encode_records(set_result(s, k, v))), k) == 1,
        lookup(load_result(encode_records(set_result(s, k, v))), k) == Some(v),
{
    let after = set_result(s, k, v);
    lemma_remove_key_trippable(s, k);
    assert(forall|i: int| 0 <= i < after.len() ==> round_trippable(#[trigger] after[i])) by {
        assert(forall|i: int|
            0 <= i < remove_key(s, k).len() ==> #[trigger] after[i] == remove_key(s, k)[i]);
        assert(after.last() == (RecordView { key: k, value: v }));
    }
    lemma_save_load_round_trip(after);
    lemma_set_shape(s, k, v);
}

/// A persisted `delete` survives reload: saving the snapshot with a
/// key removed and loading it back yields that snapshot, and no
/// record for the key is in it.
pub proof fn lemma_persisted_delete(content: Seq<u8>, k: Seq<u8>)
    ensures
        load_result(encode_records(remove_key(load_result(content), k))) == remove_key(
            load_result(content),
            k,
        ),
        !crate::store::has_key(
            load_result(encode_records(remove_key(load_result(content), k))),
            k,
        ),
{
    lemma_load_round_trippable(content);
    lemma_remove_key_trippable(load_result(content), k);
    lemma_save_load_round_trip(remove_key(load_result(content), k));
    crate::store::lemma_remove_key_clears(load_result(content), k);
}

/// Setting a key and then setting it again on the reloaded store
/// ends, once more persisted, in the same store as the second `set`
/// alone: exactly one record for the key, holding the second value,
/// at the end.
pub proof fn lemma_persisted_set_twice(
    content: Seq<u8>,
    k: Seq<u8>,
    v1: Seq<u8>,
    v2: Seq<u8>,
)
    requires
        round_trippable(RecordView { key: k, value: v1 }),
        round_trippable(RecordView { key: k, value: v2 }),
    ensures
        load_result(encode_records(set_result(load_result(content), k, v1))) == set_result(
            load_result(content),
            k,
            v1,
        ),
        set_result(load_result(encode_records(set_result(load_result(content), k, v1))), k, v2)
            == set_result(load_result(content), k, v2),
        count_key(set_result(load_result(content), k, v2), k) == 1,
        set_result(load_result(content), k, v2).last() == (RecordView { key: k, value: v2 }),
        lookup(set_result(load_result(content), k, v2), k) == Some(v2),
{
    let s = load_result(content);
    lemma_load_round_trippable(content);
    lemma_persisted_set(s, k, v1);
    lemma_set_overwrite(s, k, v1, v2);
    lemma_set_shape(s, k, v2);
}

/// A value holding a comma survives a save and a reload whole: only
/// the first comma of a line splits key from value.
pub proof fn lemma_comma_value_round_trip(r: RecordView)
    requires
        round_trippable(r),
    ensures
        load_result(encode_records(seq![r])) == seq![r],
        lookup(load_result(encode_records(seq![r])), r.key) == Some(r.value),
{
    assert(forall|i: int| 0 <= i < seq![r].len() ==> round_trippable(#[trigger] seq![r][i]));
    lemma_save_load_round_trip(seq![r]);
    assert(seq![r].first() == r);
}

} // verus!
