//! Byte-level text utilities: ASCII whitespace, trimming, and
//! splitting a line into whitespace-separated words.  Input lines and
//! file contents are treated as plain bytes throughout the library;
//! whitespace means the ASCII whitespace bytes.

use vstd::prelude::*;

verus! {

/// The ASCII whitespace bytes: tab, line feed, vertical tab, form
/// feed, carriage return, and space.
pub open spec fn is_ws(b: u8) -> bool {
    b == 9 || b == 10 || b == 11 || b == 12 || b == 13 || b == 32
}

/// Executable mirror of `is_ws`.
pub fn byte_is_ws(b: u8) -> (r: bool)
    ensures
        r == is_ws(b),
{
    b == 9 || b == 10 || b == 11 || b == 12 || b == 13 || b == 32
}

/// `s` with leading whitespace removed.
pub open spec fn trim_start(s: Seq<u8>) -> Seq<u8>
    decreases s.len(),
{
    if s.len() > 0 && is_ws(s[0]) {
        trim_start(s.drop_first())
    } else {
        s
    }
}

/// `s` with trailing whitespace removed.
pub open spec fn trim_end(s: Seq<u8>) -> Seq<u8>
    decreases s.len(),
{
    if s.len() > 0 && is_ws(s.last()) {
        trim_end(s.drop_last())
    } else {
        s
    }
}

/// `s` with surrounding whitespace removed.
pub open spec fn trim(s: Seq<u8>) -> Seq<u8> {
    trim_end(trim_start(s))
}

/// Dropping a leading whitespace prefix reaches `trim_start`.
proof fn lemma_trim_start_skip(s: Seq<u8>, a: int)
    requires
        0 <= a <= s.len(),
        forall|i: int| 0 <= i < a ==> is_ws(s[i]),
    ensures
        trim_start(s) == trim_start(s.skip(a)),
    decreases a,
{
    if a > 0 {
        assert(s.drop_first() =~= s.skip(1));
        assert(s.skip(1).skip(a - 1) =~= s.skip(a));
        lemma_trim_start_skip(s.skip(1), a - 1);
    } else {
        assert(s.skip(0) =~= s);
    }
}

/// Dropping a trailing whitespace suffix reaches `trim_end`.
proof fn lemma_trim_end_take(s: Seq<u8>, b: int)
    requires
        0 <= b <= s.len(),
        forall|i: int| b <= i < s.len() ==> is_ws(s[i]),
    ensures
        trim_end(s) == trim_end(s.take(b)),
    decreases s.len() - b,
{
    if b < s.len() {
        assert(s.drop_last() =~= s.take(s.len() - 1));
        assert(s.take(s.len() - 1).take(b) =~= s.take(b));
        lemma_trim_end_take(s.take(s.len() - 1), b);
    } else {
        assert(s.take(b) =~= s);
    }
}

/// `trim_start` never leaves leading whitespace.
proof fn lemma_trim_start_first(s: Seq<u8>)
    ensures
        trim_start(s).len() > 0 ==> !is_ws(trim_start(s)[0]),
    decreases s.len(),
{
    if s.len() > 0 && is_ws(s[0]) {
        lemma_trim_start_first(s.drop_first());
    }
}

/// `trim_end` never leaves trailing whitespace.
proof fn lemma_trim_end_last(s: Seq<u8>)
    ensures
        trim_end(s).len() > 0 ==> !is_ws(trim_end(s).last()),
    decreases s.len(),
{
    if s.len() > 0 && is_ws(s.last()) {
        lemma_trim_end_last(s.drop_last());
    }
}

/// `trim_end` keeps a prefix of its input unchanged.
proof fn lemma_trim_end_is_prefix(s: Seq<u8>)
    ensures
        trim_end(s).len() <= s.len(),
        trim_end(s) == s.take(trim_end(s).len() as int),
    decreases s.len(),
{
    if s.len() > 0 && is_ws(s.last()) {
        lemma_trim_end_is_prefix(s.drop_last());
        assert(s.drop_last() =~= s.take(s.len() - 1));
        assert(s.take(s.len() - 1).take(trim_end(s).len() as int)
            =~= s.take(trim_end(s).len() as int));
    } else {
        assert(s.take(s.len() as int) =~= s);
    }
}

/// A nonempty trim has no whitespace at either end.
pub proof fn lemma_trim_shape(s: Seq<u8>)
    ensures
        trim(s).len() > 0 ==> !is_ws(trim(s)[0]),
        trim(s).len() > 0 ==> !is_ws(trim(s).last()),
{
    let t1 = trim_start(s);
    lemma_trim_start_first(s);
    lemma_trim_end_last(t1);
    lemma_trim_end_is_prefix(t1);
    if trim(s).len() > 0 {
        assert(trim(s)[0] == t1.take(trim(s).len() as int)[0]);
    }
}

/// Trimming introduces no byte: a byte absent from `s` is absent
/// from `trim(s)`.
pub proof fn lemma_trim_keeps_absence(s: Seq<u8>, b: u8)
    requires
        forall|i: int| 0 <= i < s.len() ==> s[i] != b,
    ensures
        forall|i: int| 0 <= i < trim(s).len() ==> trim(s)[i] != b,
{
    lemma_trim_start_keeps_absence(s, b);
    lemma_trim_end_keeps_absence(trim_start(s), b);
}

proof fn lemma_trim_start_keeps_absence(s: Seq<u8>, b: u8)
    requires
        forall|i: int| 0 <= i < s.len() ==> s[i] != b,
    ensures
        forall|i: int| 0 <= i < trim_start(s).len() ==> trim_start(s)[i] != b,
    decreases s.len(),
{
    if s.len() > 0 && is_ws(s[0]) {
        assert(forall|i: int|
            0 <= i < s.drop_first().len() ==> #[trigger] s.drop_first()[i] == s[i + 1]);
        lemma_trim_start_keeps_absence(s.drop_first(), b);
        assert(trim_start(s) == trim_start(s.drop_first()));
    }
}

proof fn lemma_trim_end_keeps_absence(s: Seq<u8>, b: u8)
    requires
        forall|i: int| 0 <= i < s.len() ==> s[i] != b,
    ensures
        forall|i: int| 0 <= i < trim_end(s).len() ==> trim_end(s)[i] != b,
    decreases s.len(),
{
    if s.len() > 0 && is_ws(s.last()) {
        assert(forall|i: int|
            0 <= i < s.drop_last().len() ==> #[trigger] s.drop_last()[i] == s[i]);
        lemma_trim_end_keeps_absence(s.drop_last(), b);
        assert(trim_end(s) == trim_end(s.drop_last()));
    }
}

/// A sequence whose ends hold no whitespace is its own trim.
pub proof fn lemma_trim_id(s: Seq<u8>)
    requires
        s.len() > 0 ==> !is_ws(s[0]),
        s.len() > 0 ==> !is_ws(s.last()),
    ensures
        trim(s) == s,
{
}

/// The index of the first whitespace byte in `s`, or `s.len()` when
/// `s` holds none.
pub open spec fn first_ws(s: Seq<u8>) -> nat
    decreases s.len(),
{
    if s.len() == 0 {
        0
    } else if is_ws(s[0]) {
        0
    } else {
        1 + first_ws(s.drop_first())
    }
}

/// A scan that saw no whitespace before `i`, and whitespace or the
/// end at `i`, has found `first_ws`.
pub proof fn lemma_first_ws_found(s: Seq<u8>, i: int)
    requires
        0 <= i <= s.len(),
        forall|j: int| 0 <= j < i ==> !is_ws(s[j]),
        i < s.len() ==> is_ws(s[i]),
    ensures
        first_ws(s) == i,
    decreases i,
{
    if i > 0 {
        assert(!is_ws(s[0]));
        assert(forall|j: int|
            0 <= j < s.drop_first().len() ==> s.drop_first()[j] == s[j + 1]);
        lemma_first_ws_found(s.drop_first(), i - 1);
    }
}

/// The whitespace-separated words of `s`, in order.  Every word is
/// nonempty and free of whitespace; the separators are dropped.
pub open spec fn split_words(s: Seq<u8>) -> Seq<Seq<u8>>
    decreases s.len(),
{
    if s.len() == 0 {
        Seq::empty()
    } else if is_ws(s[0]) {
        split_words(s.drop_first())
    } else {
        let i = 1 + first_ws(s.drop_first());
        if i >= s.len() {
            seq![s]
        } else {
            seq![s.take(i as int)] + split_words(s.skip(i as int))
        }
    }
}

/// Every word of `split_words` is nonempty and holds no whitespace.
pub proof fn lemma_split_words_shape(s: Seq<u8>)
    ensures
        forall|w: int| 0 <= w < split_words(s).len() ==> (#[trigger] split_words(s)[w]).len() > 0,
        forall|w: int, j: int|
            0 <= w < split_words(s).len() && 0 <= j < split_words(s)[w].len()
                ==> !is_ws(#[trigger] split_words(s)[w][j]),
    decreases s.len(),
{
    if s.len() == 0 {
    } else if is_ws(s[0]) {
        lemma_split_words_shape(s.drop_first());
        assert(split_words(s) == split_words(s.drop_first()));
    } else {
        let i = 1 + first_ws(s.drop_first());
        assert(1 <= i);
        assert(forall|j: int|
            0 <= j < s.drop_first().len() ==> s.drop_first()[j] == s[j + 1]);
        lemma_first_ws_no_ws_before(s.drop_first());
        assert(forall|j: int| 1 <= j < i && j < s.len() ==> !is_ws(#[trigger] s[j])) by {
            assert(forall|j: int| 1 <= j < s.len() ==> #[trigger] s[j] == s.drop_first()[j - 1]);
        }
        assert(forall|j: int| 0 <= j < i && j < s.len() ==> !is_ws(s[j]));
        if i >= s.len() {
            assert(split_words(s) == seq![s]);
            assert(split_words(s)[0] == s);
        } else {
            lemma_split_words_shape(s.skip(i as int));
            let word = s.take(i as int);
            assert(split_words(s) == seq![word] + split_words(s.skip(i as int)));
            assert(word.len() > 0);
            assert(forall|j: int| 0 <= j < word.len() ==> !is_ws(#[trigger] word[j]));
            assert(forall|w: int|
                1 <= w < split_words(s).len()
                    ==> #[trigger] split_words(s)[w] == split_words(s.skip(i as int))[w - 1]);
            assert(split_words(s)[0] == word);
        }
    }
}

/// No whitespace stands before `first_ws`.
pub proof fn lemma_first_ws_no_ws_before(s: Seq<u8>)
    ensures
        first_ws(s) <= s.len(),
        forall|j: int| 0 <= j < first_ws(s) ==> !is_ws(s[j]),
    decreases s.len(),
{
    if s.len() > 0 && !is_ws(s[0]) {
        lemma_first_ws_no_ws_before(s.drop_first());
        assert(forall|j: int| 1 <= j < first_ws(s) ==> !is_ws(#[trigger] s[j])) by {
            assert(forall|j: int| 1 <= j < s.len() ==> #[trigger] s[j] == s.drop_first()[j - 1]);
        }
    }
}

/// The words rejoined with a single space between each two.
pub open spec fn join_words(ws: Seq<Seq<u8>>) -> Seq<u8>
    decreases ws.len(),
{
    if ws.len() == 0 {
        Seq::empty()
    } else if ws.len() == 1 {
        ws[0]
    } else {
        ws.first() + seq![32u8] + join_words(ws.drop_first())
    }
}

/// The views of a sequence of byte vectors.
pub open spec fn word_views(s: Seq<Vec<u8>>) -> Seq<Seq<u8>> {
    s.map_values(|w: Vec<u8>| w@)
}

/// Splits a line into its whitespace-separated words.
pub fn split_words_bytes(line: &Vec<u8>) -> (r: Vec<Vec<u8>>)
    ensures
        word_views(r@) == split_words(line@),
{
    let n = line.len();
    let mut out: Vec<Vec<u8>> = Vec::new();
    let mut i: usize = 0;
    proof {
        assert(word_views(out@) =~= Seq::<Seq<u8>>::empty());
        assert(line@.skip(0) =~= line@);
        assert(Seq::<Seq<u8>>::empty() + split_words(line@) =~= split_words(line@));
    }
    while i < n
        invariant
            0 <= i <= n,
            n == line@.len(),
            split_words(line@) == word_views(out@) + split_words(line@.skip(i as int)),
        decreases n - i,
    {
        let ghost rest = line@.skip(i as int);
        if byte_is_ws(line[i]) {
            proof {
                assert(rest[0] == line@[i as int]);
                assert(rest.drop_first() =~= line@.skip(i + 1));
            }
            i = i + 1;
        } else {
            let mut j: usize = i + 1;
            while j < n && !byte_is_ws(line[j])
                invariant
                    i < j <= n,
                    n == line@.len(),
                    forall|t: int| i < t < j ==> !is_ws(line@[t]),
                decreases n - j,
            {
                j = j + 1;
            }
            proof {
                assert(rest[0] == line@[i as int]);
                assert(rest.drop_first() =~= line@.skip(i + 1));
                assert(forall|t: int|
                    0 <= t < j - i - 1 ==> #[trigger] line@.skip(i + 1)[t] == line@[i + 1 + t]);
                lemma_first_ws_found(line@.skip(i + 1), j - i - 1);
            }
            let word = copy_range(line, i, j);
            let ghost wv = word@;
            let ghost out_before = word_views(out@);
            out.push(word);
            proof {
                assert(word_views(out@) =~= out_before.push(wv));
                assert(wv =~= rest.take(j - i));
                if j < n {
                    assert(rest.skip(j - i) =~= line@.skip(j as int));
                    assert(split_words(rest) == seq![wv] + split_words(line@.skip(j as int)));
                    assert(out_before.push(wv) + split_words(line@.skip(j as int))
                        =~= out_before + (seq![wv] + split_words(line@.skip(j as int))));
                } else {
                    assert(rest.take(j - i) =~= rest);
                    assert(split_words(rest) == seq![wv]);
                    assert(line@.skip(j as int) =~= Seq::<u8>::empty());
                    assert(out_before.push(wv) + split_words(line@.skip(j as int))
                        =~= out_before + seq![wv]);
                }
            }
            i = j;
        }
    }
    proof {
        assert(line@.skip(n as int) =~= Seq::<u8>::empty());
        assert(word_views(out@) + Seq::<Seq<u8>>::empty() =~= word_views(out@));
    }
    out
}

/// Joining nonempty whitespace-free words yields nonempty bytes that
/// end in no whitespace and hold nothing but word bytes and single
/// spaces.
pub proof fn lemma_join_words_wordlike(ws: Seq<Seq<u8>>)
    requires
        forall|w: int| 0 <= w < ws.len() ==> (#[trigger] ws[w]).len() > 0,
        forall|w: int, j: int|
            0 <= w < ws.len() && 0 <= j < ws[w].len() ==> !is_ws(#[trigger] ws[w][j]),
    ensures
        ws.len() > 0 ==> join_words(ws).len() > 0,
        ws.len() > 0 ==> !is_ws(join_words(ws).last()),
        forall|j: int|
            0 <= j < join_words(ws).len()
                ==> #[trigger] join_words(ws)[j] == 32 || !is_ws(join_words(ws)[j]),
    decreases ws.len(),
{
    if ws.len() == 0 {
    } else if ws.len() == 1 {
        assert(join_words(ws) == ws[0]);
    } else {
        let rest = ws.drop_first();
        assert(forall|w: int| 0 <= w < rest.len() ==> #[trigger] rest[w] == ws[w + 1]);
        lemma_join_words_wordlike(rest);
        let head = ws.first();
        let jr = join_words(rest);
        let whole = head + seq![32u8] + jr;
        assert(join_words(ws) == whole);
        assert(whole.last() == jr.last());
        assert(forall|j: int|
            0 <= j < whole.len() ==> #[trigger] whole[j] == 32 || !is_ws(whole[j])) by {
            assert(forall|j: int| 0 <= j < head.len() ==> whole[j] == head[j]);
            assert(whole[head.len() as int] == 32);
            assert(forall|j: int|
                head.len() + 1 <= j < whole.len()
                    ==> #[trigger] whole[j] == jr[j - head.len() - 1]);
        }
    }
}

/// Appending one word extends the joined bytes by a space and the
/// word, except at the front.
pub proof fn lemma_join_words_push(ws: Seq<Seq<u8>>, w: Seq<u8>)
    ensures
        join_words(ws.push(w)) == if ws.len() == 0 {
            w
        } else {
            join_words(ws) + seq![32u8] + w
        },
    decreases ws.len(),
{
    let p = ws.push(w);
    if ws.len() == 0 {
        assert(p.len() == 1);
        assert(p[0] == w);
    } else if ws.len() == 1 {
        assert(p.first() == ws[0]);
        assert(p.drop_first() =~= seq![w]);
        assert(join_words(seq![w]) == w);
    } else {
        assert(p.first() == ws.first());
        assert(p.drop_first() =~= ws.drop_first().push(w));
        lemma_join_words_push(ws.drop_first(), w);
        assert(ws.first() + seq![32u8] + (join_words(ws.drop_first()) + seq![32u8] + w)
            =~= (ws.first() + seq![32u8] + join_words(ws.drop_first())) + seq![32u8] + w);
    }
}

/// Rejoins words with single spaces.
pub fn join_words_bytes(words: &Vec<Vec<u8>>) -> (r: Vec<u8>)
    ensures
        r@ == join_words(word_views(words@)),
{
    let n = words.len();
    let mut r: Vec<u8> = Vec::new();
    let mut i: usize = 0;
    proof {
        assert(word_views(words@).take(0) =~= Seq::<Seq<u8>>::empty());
        assert(r@ =~= Seq::<u8>::empty());
    }
    while i < n
        invariant
            0 <= i <= n,
            n == words@.len(),
            r@ == join_words(word_views(words@).take(i as int)),
        decreases n - i,
    {
        let ghost done = word_views(words@).take(i as int);
        let ghost wv = word_views(words@)[i as int];
        if i > 0 {
            r.push(32);
        }
        append_bytes(&mut r, &words[i]);
        proof {
            lemma_join_words_push(done, wv);
            assert(word_views(words@).take(i + 1) =~= done.push(wv));
            if i > 0 {
                assert(r@ =~= join_words(done) + seq![32u8] + wv);
            } else {
                assert(r@ =~= wv);
            }
        }
        i = i + 1;
    }
    proof {
        assert(word_views(words@).take(n as int) =~= word_views(words@));
    }
    r
}

/// Copies the bytes of `s` between `a` (included) and `b` (excluded)
/// into a fresh vector.
pub fn copy_range(s: &Vec<u8>, a: usize, b: usize) -> (r: Vec<u8>)
    requires
        a <= b <= s@.len(),
    ensures
        r@ == s@.subrange(a as int, b as int),
{
    let mut r: Vec<u8> = Vec::new();
    let mut i: usize = a;
    while i < b
        invariant
            a <= i <= b <= s@.len(),
            r@ == s@.subrange(a as int, i as int),
        decreases b - i,
    {
        r.push(s[i]);
        assert(s@.subrange(a as int, i + 1) =~= s@.subrange(a as int, i as int).push(s@[i as int]));
        i = i + 1;
    }
    r
}

/// Appends every byte of `src` to `out`.
pub fn append_bytes(out: &mut Vec<u8>, src: &Vec<u8>)
    ensures
        final(out)@ == old(out)@ + src@,
{
    let n = src.len();
    let mut i: usize = 0;
    proof {
        assert(old(out)@ + src@.subrange(0, 0) =~= old(out)@);
    }
    while i < n
        invariant
            0 <= i <= n,
            n == src@.len(),
            out@ == old(out)@ + src@.subrange(0, i as int),
        decreases n - i,
    {
        out.push(src[i]);
        assert(old(out)@ + src@.subrange(0, i + 1)
            =~= (old(out)@ + src@.subrange(0, i as int)).push(src@[i as int]));
        i = i + 1;
    }
    proof {
        assert(src@.subrange(0, n as int) =~= src@);
    }
}

/// Trims the surrounding ASCII whitespace from a byte string.
pub fn trim_bytes(s: &Vec<u8>) -> (r: Vec<u8>)
    ensures
        r@ == trim(s@),
{
    let n = s.len();
    let mut a: usize = 0;
    while a < n && byte_is_ws(s[a])
        invariant
            0 <= a <= n,
            n == s@.len(),
            forall|i: int| 0 <= i < a ==> is_ws(s@[i]),
        decreases n - a,
    {
        a = a + 1;
    }
    let mut b: usize = n;
    while b > a && byte_is_ws(s[b - 1])
        invariant
            a <= b <= n,
            n == s@.len(),
            forall|i: int| b <= i < n ==> is_ws(s@[i]),
        decreases b,
    {
        b = b - 1;
    }
    let r = copy_range(s, a, b);
    proof {
        lemma_trim_start_skip(s@, a as int);
        let t = trim_start(s@);
        assert(t == trim_start(s@.skip(a as int)));
        if a < n && !is_ws(s@[a as int]) {
            assert(trim_start(s@.skip(a as int)) == s@.skip(a as int));
        }
        if a == n {
            assert(s@.skip(a as int) =~= Seq::<u8>::empty());
        }
        assert(t =~= s@.skip(a as int));
        lemma_trim_end_take(t, b - a);
        assert(t.take(b - a) =~= s@.subrange(a as int, b as int));
        if b > a && !is_ws(s@[b - 1]) {
            assert(s@.subrange(a as int, b as int).last() == s@[b - 1]);
            assert(trim_end(s@.subrange(a as int, b as int)) == s@.subrange(a as int, b as int));
        }
        if b == a {
            assert(s@.subrange(a as int, b as int) =~= Seq::<u8>::empty());
        }
        assert(r@ == trim(s@));
    }
    r
}

} // verus!
