//! The corpus index: words grouped into buckets by length, in file
//! order, with an aggregate per-letter document-frequency profile per
//! bucket, sorted descending by frequency.

use vstd::prelude::*;
use crate::matching::count_of;
use crate::matching::lemma_filter_push;
use crate::rank::distinct_keys;
use crate::rank::get_frequency;
use crate::rank::freq_of;
use crate::rank::has_key;
use crate::rank::lemma_freq_of_props;

verus! {

/// The first bucket of this length, if any.
pub open spec fn bucket_of<T>(corpus: Seq<(usize, T)>, length: usize) -> Option<T>
    decreases corpus.len(),
{
    if corpus.len() == 0 {
        Option::None
    } else if corpus[0].0 == length {
        Option::Some(corpus[0].1)
    } else {
        bucket_of(corpus.drop_first(), length)
    }
}

pub proof fn lemma_bucket_of_first<T>(corpus: Seq<(usize, T)>, length: usize, i: int)
    requires
        0 <= i < corpus.len(),
        corpus[i].0 == length,
        forall|j: int| 0 <= j < i ==> (#[trigger] corpus[j]).0 != length,
    ensures
        bucket_of(corpus, length) == Option::Some(corpus[i].1),
    decreases i,
{
    if i > 0 {
        assert(corpus[0].0 != length);
        assert forall|j: int| 0 <= j < i - 1 implies (#[trigger] corpus.drop_first()[j]).0
            != length by {
            assert(corpus.drop_first()[j] == corpus[j + 1]);
        }
        assert(corpus.drop_first()[i - 1] == corpus[i]);
        lemma_bucket_of_first(corpus.drop_first(), length, i - 1);
    }
}

pub proof fn lemma_bucket_of_none<T>(corpus: Seq<(usize, T)>, length: usize)
    requires
        forall|i: int| 0 <= i < corpus.len() ==> (#[trigger] corpus[i]).0 != length,
    ensures
        bucket_of(corpus, length) is None,
    decreases corpus.len(),
{
    if corpus.len() > 0 {
        assert forall|j: int| 0 <= j < corpus.drop_first().len() implies
            (#[trigger] corpus.drop_first()[j]).0 != length by {
            assert(corpus.drop_first()[j] == corpus[j + 1]);
        }
        lemma_bucket_of_none(corpus.drop_first(), length);
    }
}

/// Look up the first table entry with this length key.
pub fn get_words<'a, T>(corpus: &'a [(usize, T)], length: usize) -> (r: Option<&'a T>)
    ensures
        match r {
            Some(t) => bucket_of(corpus@, length) == Option::Some(*t),
            None => bucket_of(corpus@, length) is None,
        },
{
    let n = corpus.len();
    let mut i: usize = 0;
    while i < n
        invariant
            i <= n,
            n == corpus@.len(),
            forall|j: int| 0 <= j < i ==> (#[trigger] corpus@[j]).0 != length,
        decreases n - i,
    {
        let pair = vstd::slice::slice_index_get(corpus, i);
        if pair.0 == length {
            proof {
                lemma_bucket_of_first(corpus@, length, i as int);
            }
            return Some(&pair.1);
        }
        i += 1;
    }
    proof {
        lemma_bucket_of_none(corpus@, length);
    }
    None
}

/// Words of exactly this length, in their original order.
#[verifier::loop_isolation(false)]
pub fn filter_by_length(lines: &Vec<String>, length: usize) -> (r: Vec<String>)
    ensures
        r@.map_values(|s: String| s@) == lines@.map_values(|s: String| s@).filter(
            |w: Seq<char>| w.len() == length,
        ),
        (exists|j: int| 0 <= j < lines@.len() && (#[trigger] lines@[j])@.len() == length)
            ==> r@.len() > 0,
{
    let n = lines.len();
    let mut out: Vec<String> = Vec::new();
    let mut i: usize = 0;
    while i < n
        invariant
            i <= n,
            n == lines@.len(),
            out@.map_values(|s: String| s@) == lines@.take(i as int).map_values(|s: String| s@)
                .filter(|w: Seq<char>| w.len() == length),
            (exists|j: int| 0 <= j < i && (#[trigger] lines@[j])@.len() == length) ==> out@.len()
                > 0,
        decreases n - i,
    {
        let ghost out_len0 = out@.len();
        let w = &lines[i];
        let ghost prefix = lines@.take(i as int).map_values(|s: String| s@);
        proof {
            assert(lines@.take(i as int + 1) =~= lines@.take(i as int).push(lines@[i as int]));
            assert(lines@.take(i as int + 1).map_values(|s: String| s@) =~= prefix.push(
                lines@[i as int]@,
            ));
            lemma_filter_push(prefix, lines@[i as int]@, |w: Seq<char>| w.len() == length);
        }
        if w.as_str().unicode_len() == length {
            out.push(String::from_str(w.as_str()));
        }
        proof {
            assert(out@.map_values(|s: String| s@) =~= lines@.take(i as int + 1).map_values(
                |s: String| s@,
            ).filter(|w: Seq<char>| w.len() == length));
            assert(out@.len() >= out_len0);
            assert forall|j: int| 0 <= j < i + 1 && (#[trigger] lines@[j])@.len() == length
                implies out@.len() > 0 by {
                if j == i {
                    assert(lines@[i as int]@.len() == length);
                }
            }
        }
        i += 1;
    }
    proof {
        assert(lines@.take(n as int) =~= lines@);
    }
    out
}

fn lens_contains(v: &Vec<usize>, x: usize) -> (r: bool)
    ensures
        r == v@.contains(x),
{
    let n = v.len();
    let mut i: usize = 0;
    while i < n
        invariant
            i <= n,
            n == v@.len(),
            forall|j: int| 0 <= j < i ==> v@[j] != x,
        decreases n - i,
    {
        if v[i] == x {
            return true;
        }
        i += 1;
    }
    false
}

/// Group the corpus lines into length buckets: one bucket per distinct
/// word length, keys strictly ascending, each bucket holding exactly
/// its length's words in file order.
#[verifier::loop_isolation(false)]
pub fn build_corpus(lines: &Vec<String>) -> (r: Vec<(usize, Vec<String>)>)
    ensures
        forall|i: int, j: int|
            0 <= i < j < r@.len() ==> (#[trigger] r@[i]).0 < (#[trigger] r@[j]).0,
        forall|i: int|
            0 <= i < r@.len() ==> (#[trigger] r@[i]).1@.map_values(|s: String| s@)
                == lines@.map_values(|s: String| s@).filter(
                |w: Seq<char>| w.len() == r@[i].0,
            ),
        forall|i: int|
            0 <= i < lines@.len() ==> has_bucket_for(r@, (#[trigger] lines@[i])@.len()),
        forall|i: int| 0 <= i < r@.len() ==> (#[trigger] r@[i]).1@.len() > 0,
{
    let n = lines.len();
    let mut lens: Vec<usize> = Vec::new();
    let mut i: usize = 0;
    while i < n
        invariant
            i <= n,
            n == lines@.len(),
            forall|p: int, q: int| 0 <= p < q < lens@.len() ==> lens@[p] != lens@[q],
            forall|j: int| 0 <= j < i ==> lens@.contains((#[trigger] lines@[j])@.len() as usize),
            forall|j: int| 0 <= j < i ==> (#[trigger] lines@[j])@.len() <= usize::MAX,
            forall|p: int| 0 <= p < lens@.len() ==> old_contains(lines@, #[trigger] lens@[p]),
        decreases n - i,
    {
        let ghost lens0 = lens@;
        let l = lines[i].as_str().unicode_len();
        if !lens_contains(&lens, l) {
            lens.push(l);
            proof {
                assert(old_contains(lines@, l)) by {
                    assert(lines@[i as int]@.len() == l);
                }
                assert forall|p: int, q: int| 0 <= p < q < lens@.len() implies lens@[p]
                    != lens@[q] by {
                    if q == lens@.len() - 1 {
                        assert(!lens0.contains(l));
                        assert(lens0[p] != l);
                    }
                }
                assert forall|j: int| 0 <= j < i + 1 implies lens@.contains(
                    (#[trigger] lines@[j])@.len() as usize,
                ) by {
                    if j < i {
                        let k = choose|k: int|
                            0 <= k < lens0.len() && lens0[k] == lines@[j]@.len() as usize;
                        assert(lens@[k] == lens0[k]);
                    } else {
                        assert(lens@[lens@.len() - 1] == l);
                    }
                }
            }
        } else {
            proof {
                assert(lens@.contains(lines@[i as int]@.len() as usize));
            }
        }
        i += 1;
    }

    proof {
        assert forall|x: usize| lens@.contains(x) <==> old_contains(lines@, x) by {
            if lens@.contains(x) {
                let p = choose|p: int| 0 <= p < lens@.len() && lens@[p] == x;
                assert(old_contains(lines@, lens@[p]));
            }
            if old_contains(lines@, x) {
                let j = choose|j: int| 0 <= j < lines@.len() && (#[trigger] lines@[j])@.len() == x;
                assert(lens@.contains(lines@[j]@.len() as usize));
            }
        }
    }

    // Insertion-sort the distinct lengths ascending.
    let m = lens.len();
    let mut a: usize = 1;
    while a < m
        invariant
            1 <= a,
            a <= m || m == 0,
            m == lens@.len(),
            forall|p: int, q: int| 0 <= p < q < lens@.len() ==> lens@[p] != lens@[q],
            forall|p: int, q: int| 0 <= p < q < a ==> lens@[p] < lens@[q],
            forall|x: usize| lens@.contains(x) <==> old_contains(lines@, x),
        decreases m - a,
    {
        let mut b: usize = a;
        while b > 0 && lens[b - 1] > lens[b]
            invariant
                0 <= b <= a < m,
                m == lens@.len(),
                forall|p: int, q: int| 0 <= p < q < lens@.len() ==> lens@[p] != lens@[q],
                forall|p: int, q: int|
                    0 <= p < q < a + 1 && p != b && q != b ==> lens@[p] < lens@[q],
                forall|q: int| b < q < a + 1 ==> lens@[b as int] < lens@[q],
                forall|x: usize| lens@.contains(x) <==> old_contains(lines@, x),
            decreases b,
        {
            let ghost before = lens@;
            let tmp = lens[b - 1];
            let also = lens[b];
            lens[b - 1] = also;
            lens[b] = tmp;
            proof {
                assert forall|x: usize| lens@.contains(x) <==> before.contains(x) by {
                    if lens@.contains(x) {
                        let k = choose|k: int| 0 <= k < lens@.len() && lens@[k] == x;
                        if k == b - 1 {
                            assert(before[b as int] == x);
                        } else if k == b {
                            assert(before[b as int - 1] == x);
                        } else {
                            assert(before[k] == x);
                        }
                    }
                    if before.contains(x) {
                        let k = choose|k: int| 0 <= k < before.len() && before[k] == x;
                        if k == b - 1 {
                            assert(lens@[b as int] == x);
                        } else if k == b {
                            assert(lens@[b as int - 1] == x);
                        } else {
                            assert(lens@[k] == x);
                        }
                    }
                }
                assert forall|p: int, q: int| 0 <= p < q < lens@.len() implies lens@[p]
                    != lens@[q] by {
                    let p0: int = if p == b - 1 {
                        b as int
                    } else if p == b {
                        b - 1
                    } else {
                        p
                    };
                    let q0: int = if q == b - 1 {
                        b as int
                    } else if q == b {
                        b - 1
                    } else {
                        q
                    };
                    assert(lens@[p] == before[p0]);
                    assert(lens@[q] == before[q0]);
                }
            }
            b -= 1;
        }
        a += 1;
    }

    // Build one bucket per length, in ascending key order.
    let mut r: Vec<(usize, Vec<String>)> = Vec::new();
    let mut k: usize = 0;
    let m2 = lens.len();
    while k < m2
        invariant
            k <= m2,
            m2 == lens@.len(),
            r@.len() == k,
            forall|p: int, q: int| 0 <= p < q < lens@.len() ==> lens@[p] != lens@[q],
            forall|p: int, q: int| 0 <= p < q < lens@.len() ==> lens@[p] < lens@[q],
            forall|p: int| 0 <= p < k ==> (#[trigger] r@[p]).0 == lens@[p],
            forall|p: int|
                0 <= p < k ==> (#[trigger] r@[p]).1@.map_values(|s: String| s@)
                    == lines@.map_values(|s: String| s@).filter(
                    |w: Seq<char>| w.len() == r@[p].0,
                ),
            forall|p: int| 0 <= p < k ==> (#[trigger] r@[p]).1@.len() > 0,
        decreases m2 - k,
    {
        let ghost r0 = r@;
        let length = lens[k];
        proof {
            assert(lens@.contains(lens@[k as int]));
            assert(old_contains(lines@, length));
        }
        let bucket = filter_by_length(lines, length);
        r.push((length, bucket));
        proof {
            assert forall|p: int| 0 <= p < k + 1 implies (#[trigger] r@[p]).1@.map_values(
                |s: String| s@,
            ) == lines@.map_values(|s: String| s@).filter(
                |w: Seq<char>| w.len() == r@[p].0,
            ) by {
                if p < k {
                    assert(r@[p] == r0[p]);
                }
            }
        }
        k += 1;
    }
    proof {
        assert forall|i: int| 0 <= i < lines@.len() implies has_bucket_for(
            r@,
            (#[trigger] lines@[i])@.len(),
        ) by {
            assert(lines@[i]@.len() <= usize::MAX);
            let x: usize = lines@[i]@.len() as usize;
            assert(lines@[i]@.len() == x);
            assert(old_contains(lines@, x));
            assert(lens@.contains(x));
            let k = choose|k: int| 0 <= k < lens@.len() && lens@[k] == x;
            assert(r@[k].0 == lines@[i]@.len());
        }
    }
    r
}

/// Some bucket of the table is keyed with length `l`.
pub open spec fn has_bucket_for(r: Seq<(usize, Vec<String>)>, l: nat) -> bool {
    exists|k: int| 0 <= k < r.len() && (#[trigger] r[k]).0 == l
}

/// Whether some corpus line has length `x` (used to pin down which
/// length keys survive the sort).
pub open spec fn old_contains(lines: Seq<String>, x: usize) -> bool {
    exists|j: int| 0 <= j < lines.len() && (#[trigger] lines[j])@.len() == x
}

/// In how many of the words the character occurs at least once.
pub open spec fn doc_count(ws: Seq<Seq<char>>, c: char) -> nat
    decreases ws.len(),
{
    if ws.len() == 0 {
        0
    } else {
        doc_count(ws.drop_last(), c) + (if count_of(ws.last(), c) > 0 {
            1nat
        } else {
            0nat
        })
    }
}

pub proof fn lemma_doc_count_le(ws: Seq<Seq<char>>, c: char)
    ensures
        doc_count(ws, c) <= ws.len(),
    decreases ws.len(),
{
    if ws.len() > 0 {
        lemma_doc_count_le(ws.drop_last(), c);
    }
}

pub proof fn lemma_doc_push(ws: Seq<Seq<char>>, x: Seq<char>)
    ensures
        forall|c: char|
            doc_count(ws.push(x), c) == doc_count(ws, c) + (if count_of(x, c) > 0 {
                1nat
            } else {
                0nat
            }),
{
    assert(ws.push(x).drop_last() =~= ws);
    assert(ws.push(x).last() == x);
}

/// The views of a vector of words.
pub open spec fn word_views(ws: Seq<String>) -> Seq<Seq<char>> {
    ws.map_values(|s: String| s@)
}

/// Some entry among the first `k` of the profile has this key.
pub open spec fn key_in_prefix(s: Seq<(char, usize)>, k: int, c: char) -> bool {
    exists|q: int| 0 <= q < k && (#[trigger] s[q]).0 == c
}

/// What makes a sequence the document-frequency profile of a bucket:
/// one entry per occurring letter with its document count, counts
/// descending.
pub open spec fn is_profile_of(p: Seq<(char, usize)>, ws: Seq<Seq<char>>) -> bool {
    &&& distinct_keys(p)
    &&& forall|i: int|
        0 <= i < p.len() ==> (#[trigger] p[i]).1 == doc_count(ws, p[i].0) && p[i].1 > 0
    &&& forall|c: char| doc_count(ws, c) > 0 ==> has_key(p, c)
    &&& forall|i: int, j: int| 0 <= i < j < p.len() ==> (#[trigger] p[i]).1 >= (#[trigger] p[j]).1
}

/// The aggregate per-letter document-frequency profile of one bucket:
/// for each letter, in how many of the words it occurs at least once,
/// sorted descending by that count.
#[verifier::loop_isolation(false)]
pub fn document_frequency(words: &Vec<String>) -> (r: Vec<(char, usize)>)
    ensures
        is_profile_of(r@, word_views(words@)),
{
    let ghost wv = word_views(words@);
    let n = words.len();
    let mut acc: Vec<(char, usize)> = Vec::new();
    let mut i: usize = 0;
    while i < n
        invariant
            i <= n,
            n == words@.len(),
            distinct_keys(acc@),
            forall|p: int|
                0 <= p < acc@.len() ==> (#[trigger] acc@[p]).1 == doc_count(
                    wv.take(i as int),
                    acc@[p].0,
                ) && acc@[p].1 > 0,
            forall|c: char| doc_count(wv.take(i as int), c) > 0 ==> has_key(acc@, c),
        decreases n - i,
    {
        let freq = get_frequency(words[i].as_str());
        let ghost word = words@[i as int]@;
        proof {
            lemma_freq_of_props(word);
            assert(wv.take(i as int + 1) =~= wv.take(i as int).push(word));
            lemma_doc_push(wv.take(i as int), word);
        }
        let fl = freq.len();
        let mut k: usize = 0;
        while k < fl
            invariant
                k <= fl,
                fl == freq@.len(),
                freq@ == freq_of(word),
                distinct_keys(acc@),
                forall|p: int|
                    0 <= p < acc@.len() ==> (#[trigger] acc@[p]).1 == doc_count(
                        wv.take(i as int),
                        acc@[p].0,
                    ) + (if key_in_prefix(freq@, k as int, acc@[p].0) {
                        1nat
                    } else {
                        0nat
                    }) && acc@[p].1 > 0,
                forall|c: char|
                    doc_count(wv.take(i as int), c) > 0 || key_in_prefix(freq@, k as int, c)
                        ==> has_key(acc@, c),
            decreases fl - k,
        {
            let e = freq[k];
            let ghost acc0 = acc@;
            proof {
                assert(freq@[k as int] == e);
                assert(count_of(word, e.0) > 0) by {
                    assert(has_key(freq@, e.0));
                }
                assert(!key_in_prefix(freq@, k as int, e.0)) by {
                    if key_in_prefix(freq@, k as int, e.0) {
                        let q = choose|q: int| 0 <= q < k && (#[trigger] freq@[q]).0 == e.0;
                        assert(freq@[q].0 != freq@[k as int].0);
                    }
                }
            }
            match crate::rank::find_key(acc.as_slice(), e.0) {
                Some(idx) => {
                    let entry = acc[idx];
                    proof {
                        lemma_doc_count_le(wv.take(i as int), entry.0);
                    }
                    acc[idx] = (entry.0, entry.1 + 1);
                },
                None => {
                    proof {
                        assert(doc_count(wv.take(i as int), e.0) == 0) by {
                            if doc_count(wv.take(i as int), e.0) > 0 {
                                assert(has_key(acc0, e.0));
                            }
                        }
                    }
                    acc.push((e.0, 1));
                },
            }
            proof {
                assert forall|p: int| 0 <= p < acc@.len() implies (#[trigger] acc@[p]).1
                    == doc_count(wv.take(i as int), acc@[p].0) + (if key_in_prefix(
                    freq@,
                    k as int + 1,
                    acc@[p].0,
                ) {
                    1nat
                } else {
                    0nat
                }) && acc@[p].1 > 0 by {
                    if p < acc0.len() && acc@[p] == acc0[p] {
                        assert(key_in_prefix(freq@, k as int + 1, acc@[p].0) <==> key_in_prefix(
                            freq@,
                            k as int,
                            acc@[p].0,
                        ) || acc@[p].0 == e.0) by {
                            if key_in_prefix(freq@, k as int + 1, acc@[p].0) {
                                let q = choose|q: int|
                                    0 <= q < k + 1 && (#[trigger] freq@[q]).0 == acc@[p].0;
                                if q < k {
                                    assert(key_in_prefix(freq@, k as int, acc@[p].0));
                                }
                            }
                        }
                        assert(acc@[p].0 != e.0 || key_in_prefix(freq@, k as int, e.0) || !(p
                            < acc0.len()) || true);
                    } else {
                        assert(freq@[k as int].0 == e.0);
                    }
                }
                assert forall|c: char|
                    doc_count(wv.take(i as int), c) > 0 || key_in_prefix(freq@, k as int + 1, c)
                        implies has_key(acc@, c) by {
                    if key_in_prefix(freq@, k as int + 1, c) && !key_in_prefix(
                        freq@,
                        k as int,
                        c,
                    ) {
                        let q = choose|q: int| 0 <= q < k + 1 && (#[trigger] freq@[q]).0 == c;
                        assert(q == k);
                        assert(c == e.0);
                        assert(has_key(acc@, c)) by {
                            if acc@.len() > acc0.len() {
                                assert(acc@[acc@.len() - 1].0 == e.0);
                            }
                        }
                    } else {
                        assert(has_key(acc0, c));
                        let q = choose|q: int| 0 <= q < acc0.len() && (#[trigger] acc0[q]).0 == c;
                        assert(acc@[q].0 == c);
                    }
                }
            }
            k += 1;
        }
        proof {
            assert forall|p: int| 0 <= p < acc@.len() implies (#[trigger] acc@[p]).1 == doc_count(
                wv.take(i as int + 1),
                acc@[p].0,
            ) && acc@[p].1 > 0 by {
                assert(key_in_prefix(freq@, fl as int, acc@[p].0) <==> has_key(freq@, acc@[p].0));
                assert(has_key(freq@, acc@[p].0) <==> count_of(word, acc@[p].0) > 0);
            }
            assert forall|c: char| doc_count(wv.take(i as int + 1), c) > 0 implies has_key(
                acc@,
                c,
            ) by {
                if doc_count(wv.take(i as int), c) == 0 {
                    assert(count_of(word, c) > 0);
                    assert(has_key(freq@, c));
                    let q = choose|q: int| 0 <= q < freq@.len() && (#[trigger] freq@[q]).0 == c;
                    assert(key_in_prefix(freq@, fl as int, c));
                }
            }
        }
        i += 1;
    }
    proof {
        assert(wv.take(n as int) =~= wv);
    }

    // Insertion-sort the profile descending by document count.
    let m = acc.len();
    let mut a: usize = 1;
    while a < m
        invariant
            1 <= a,
            a <= m || m == 0,
            m == acc@.len(),
            distinct_keys(acc@),
            forall|p: int|
                0 <= p < acc@.len() ==> (#[trigger] acc@[p]).1 == doc_count(wv, acc@[p].0)
                    && acc@[p].1 > 0,
            forall|c: char| doc_count(wv, c) > 0 ==> has_key(acc@, c),
            forall|p: int, q: int|
                0 <= p < q < a ==> (#[trigger] acc@[p]).1 >= (#[trigger] acc@[q]).1,
        decreases m - a,
    {
        let mut b: usize = a;
        while b > 0 && acc[b - 1].1 < acc[b].1
            invariant
                b <= a < m,
                m == acc@.len(),
                distinct_keys(acc@),
                forall|p: int|
                    0 <= p < acc@.len() ==> (#[trigger] acc@[p]).1 == doc_count(wv, acc@[p].0)
                        && acc@[p].1 > 0,
                forall|c: char| doc_count(wv, c) > 0 ==> has_key(acc@, c),
                forall|p: int, q: int|
                    0 <= p < q < a + 1 && p != b && q != b ==> (#[trigger] acc@[p]).1 >= (
                    #[trigger] acc@[q]).1,
                forall|q: int| b < q < a + 1 ==> acc@[b as int].1 >= (#[trigger] acc@[q]).1,
            decreases b,
        {
            let ghost before = acc@;
            let hi = acc[b];
            let lo = acc[b - 1];
            acc[b - 1] = hi;
            acc[b] = lo;
            proof {
                assert forall|c: char| doc_count(wv, c) > 0 implies has_key(acc@, c) by {
                    assert(has_key(before, c));
                    let q = choose|q: int| 0 <= q < before.len() && (#[trigger] before[q]).0 == c;
                    if q == b - 1 {
                        assert(acc@[b as int].0 == c);
                    } else if q == b {
                        assert(acc@[b as int - 1].0 == c);
                    } else {
                        assert(acc@[q].0 == c);
                    }
                }
                assert forall|p: int, q: int| 0 <= p < q < acc@.len() implies (#[trigger] acc@[
                    p
                ]).0 != (#[trigger] acc@[q]).0 by {
                    let p0: int = if p == b - 1 {
                        b as int
                    } else if p == b {
                        b - 1
                    } else {
                        p
                    };
                    let q0: int = if q == b - 1 {
                        b as int
                    } else if q == b {
                        b - 1
                    } else {
                        q
                    };
                    assert(acc@[p] == before[p0]);
                    assert(acc@[q] == before[q0]);
                }
            }
            b -= 1;
        }
        a += 1;
    }
    acc
}

/// The document-frequency profile of every bucket, under its length.
pub fn build_profiles(corpus: &Vec<(usize, Vec<String>)>) -> (r: Vec<(usize, Vec<(char, usize)>)>)
    ensures
        r@.len() == corpus@.len(),
        forall|i: int|
            0 <= i < r@.len() ==> (#[trigger] r@[i]).0 == corpus@[i].0 && is_profile_of(
                r@[i].1@,
                word_views(corpus@[i].1@),
            ),
{
    let n = corpus.len();
    let mut r: Vec<(usize, Vec<(char, usize)>)> = Vec::new();
    let mut i: usize = 0;
    while i < n
        invariant
            i <= n,
            n == corpus@.len(),
            r@.len() == i,
            forall|p: int|
                0 <= p < i ==> (#[trigger] r@[p]).0 == corpus@[p].0 && is_profile_of(
                    r@[p].1@,
                    word_views(corpus@[p].1@),
                ),
        decreases n - i,
    {
        let pair = &corpus[i];
        let profile = document_frequency(&pair.1);
        let ghost r0 = r@;
        r.push((pair.0, profile));
        proof {
            assert forall|p: int| 0 <= p < i + 1 implies (#[trigger] r@[p]).0 == corpus@[p].0
                && is_profile_of(r@[p].1@, word_views(corpus@[p].1@)) by {
                if p < i {
                    assert(r@[p] == r0[p]);
                }
            }
        }
        i += 1;
    }
    r
}

} // verus!
