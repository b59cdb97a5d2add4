//! Frequency scoring: per-word letter-frequency profiles and the two
//! ranking scores (overlap-weighted and presence-weighted) used to
//! rank candidate words against a reference profile.

use vstd::prelude::*;
use crate::matching::count_of;
use crate::matching::lemma_count_push;
use crate::parse::upper_of;
use crate::parse::to_upper_letter;

verus! {

/// Some entry of the profile has this letter as its key.
pub open spec fn has_key(s: Seq<(char, usize)>, c: char) -> bool {
    exists|i: int| 0 <= i < s.len() && (#[trigger] s[i]).0 == c
}

/// No two entries share a key.
pub open spec fn distinct_keys(s: Seq<(char, usize)>) -> bool {
    forall|i: int, j: int| 0 <= i < j < s.len() ==> (#[trigger] s[i]).0 != (#[trigger] s[j]).0
}

/// The count the profile gives for `c`: the first entry's count, or 0
/// when no entry has that key.
pub open spec fn lookup_count(s: Seq<(char, usize)>, c: char) -> nat
    decreases s.len(),
{
    if s.len() == 0 {
        0
    } else if s[0].0 == c {
        s[0].1 as nat
    } else {
        lookup_count(s.drop_first(), c)
    }
}

/// The sum of all entry counts of a profile.
pub open spec fn sum_counts(s: Seq<(char, usize)>) -> nat
    decreases s.len(),
{
    if s.len() == 0 {
        0
    } else {
        s[0].1 as nat + sum_counts(s.drop_first())
    }
}

/// One word's frequency profile after seeing one more character: bump
/// the character's entry, or open a new entry with count 1.
pub open spec fn freq_step(s: Seq<(char, usize)>, c: char) -> Seq<(char, usize)> {
    if has_key(s, c) {
        s.map_values(
            |p: (char, usize)|
                if p.0 == c {
                    (p.0, (p.1 + 1) as usize)
                } else {
                    p
                },
        )
    } else {
        s.push((c, 1))
    }
}

/// The frequency profile of a word: one entry per distinct character,
/// keyed in order of first occurrence, valued with its total count.
pub open spec fn freq_of(w: Seq<char>) -> Seq<(char, usize)>
    decreases w.len(),
{
    if w.len() == 0 {
        Seq::empty()
    } else {
        freq_step(freq_of(w.drop_last()), w.last())
    }
}

pub proof fn lemma_lookup_first(s: Seq<(char, usize)>, c: char, i: int)
    requires
        0 <= i < s.len(),
        s[i].0 == c,
        forall|j: int| 0 <= j < i ==> (#[trigger] s[j]).0 != c,
    ensures
        lookup_count(s, c) == s[i].1,
    decreases i,
{
    if i > 0 {
        assert(s[0].0 != c);
        assert forall|j: int| 0 <= j < i - 1 implies (#[trigger] s.drop_first()[j]).0 != c by {
            assert(s.drop_first()[j] == s[j + 1]);
        }
        assert(s.drop_first()[i - 1] == s[i]);
        lemma_lookup_first(s.drop_first(), c, i - 1);
    }
}

pub proof fn lemma_sum_push(s: Seq<(char, usize)>, x: (char, usize))
    ensures
        sum_counts(s.push(x)) == sum_counts(s) + x.1,
    decreases s.len(),
{
    if s.len() == 0 {
        assert(s.push(x)[0] == x);
        assert(s.push(x).drop_first() =~= Seq::<(char, usize)>::empty());
        assert(sum_counts(Seq::<(char, usize)>::empty()) == 0);
    } else {
        assert(s.push(x)[0] == s[0]);
        assert(s.push(x).drop_first() =~= s.drop_first().push(x));
        lemma_sum_push(s.drop_first(), x);
    }
}

/// Bumping the one entry keyed `c` raises the sum by one.
pub proof fn lemma_sum_bump(s: Seq<(char, usize)>, c: char)
    requires
        distinct_keys(s),
        has_key(s, c),
        forall|i: int| 0 <= i < s.len() ==> (#[trigger] s[i]).1 < usize::MAX,
    ensures
        sum_counts(
            s.map_values(
                |p: (char, usize)|
                    if p.0 == c {
                        (p.0, (p.1 + 1) as usize)
                    } else {
                        p
                    },
            ),
        ) == sum_counts(s) + 1,
    decreases s.len(),
{
    let f = |p: (char, usize)|
        if p.0 == c {
            (p.0, (p.1 + 1) as usize)
        } else {
            p
        };
    let t = s.map_values(f);
    assert(s.len() > 0);
    assert(t[0] == f(s[0]));
    assert(t.drop_first() =~= s.drop_first().map_values(f));
    if s[0].0 == c {
        assert forall|j: int| 0 <= j < s.drop_first().len() implies (#[trigger] s.drop_first()[
            j
        ]).0 != c by {
            assert(s.drop_first()[j] == s[j + 1]);
        }
        assert(s.drop_first().map_values(f) =~= s.drop_first());
    } else {
        assert(distinct_keys(s.drop_first())) by {
            assert forall|p: int, q: int| 0 <= p < q < s.drop_first().len() implies
                (#[trigger] s.drop_first()[p]).0 != (#[trigger] s.drop_first()[q]).0 by {
                assert(s[p + 1].0 != s[q + 1].0);
            }
        }
        assert(has_key(s.drop_first(), c)) by {
            let i = choose|i: int| 0 <= i < s.len() && (#[trigger] s[i]).0 == c;
            assert(s.drop_first()[i - 1].0 == c);
        }
        assert forall|i: int| 0 <= i < s.drop_first().len() implies (#[trigger] s.drop_first()[
            i
        ]).1 < usize::MAX by {
            assert(s[i + 1].1 < usize::MAX);
        }
        lemma_sum_bump(s.drop_first(), c);
    }
}

/// The structural facts of a frequency profile: keys are distinct,
/// every entry counts its key's occurrences, every occurring character
/// has an entry, and the counts sum to the word's length.
pub proof fn lemma_freq_of_props(w: Seq<char>)
    requires
        w.len() <= usize::MAX,
    ensures
        distinct_keys(freq_of(w)),
        forall|i: int|
            0 <= i < freq_of(w).len() ==> (#[trigger] freq_of(w)[i]).1 == count_of(
                w,
                freq_of(w)[i].0,
            ) && freq_of(w)[i].1 > 0,
        forall|c: char| count_of(w, c) > 0 ==> has_key(freq_of(w), c),
        forall|c: char| has_key(freq_of(w), c) ==> count_of(w, c) > 0,
        sum_counts(freq_of(w)) == w.len(),
    decreases w.len(),
{
    crate::matching::lemma_count_le(w, w.last());
    if w.len() > 0 {
        let dl = w.drop_last();
        let c = w.last();
        lemma_freq_of_props(dl);
        let prev = freq_of(dl);
        assert(w == dl.push(c));
        lemma_count_push(dl, c);
        assert forall|x: char| count_of(w, x) == count_of(dl, x) + (if x == c {
            1nat
        } else {
            0nat
        }) by {}
        assert forall|i: int| 0 <= i < prev.len() implies (#[trigger] prev[i]).1 < usize::MAX by {
            crate::matching::lemma_count_le(dl, prev[i].0);
        }
        if has_key(prev, c) {
            lemma_sum_bump(prev, c);
            let f = |p: (char, usize)|
                if p.0 == c {
                    (p.0, (p.1 + 1) as usize)
                } else {
                    p
                };
            let t = prev.map_values(f);
            assert(freq_of(w) == t);
            assert forall|i: int| 0 <= i < t.len() implies (#[trigger] t[i]).1 == count_of(
                w,
                t[i].0,
            ) && t[i].1 > 0 by {
                assert(t[i] == f(prev[i]));
                assert(prev[i].1 == count_of(dl, prev[i].0));
            }
            assert forall|x: char| count_of(w, x) > 0 implies has_key(t, x) by {
                if count_of(dl, x) > 0 {
                    assert(has_key(freq_of(dl), x));
                    let i = choose|i: int| 0 <= i < prev.len() && (#[trigger] prev[i]).0 == x;
                    assert(t[i] == f(prev[i]));
                    assert(t[i].0 == x);
                } else {
                    assert(x == c);
                    let i = choose|i: int| 0 <= i < prev.len() && (#[trigger] prev[i]).0 == c;
                    assert(t[i] == f(prev[i]));
                    assert(t[i].0 == c);
                }
            }
            assert forall|x: char| has_key(t, x) implies count_of(w, x) > 0 by {
                let i = choose|i: int| 0 <= i < t.len() && (#[trigger] t[i]).0 == x;
                assert(t[i] == f(prev[i]));
            }
            assert(distinct_keys(t)) by {
                assert forall|p: int, q: int| 0 <= p < q < t.len() implies (#[trigger] t[p]).0 != (
                #[trigger] t[q]).0 by {
                    assert(t[p] == f(prev[p]));
                    assert(t[q] == f(prev[q]));
                    assert(prev[p].0 != prev[q].0);
                }
            }
        } else {
            let t = prev.push((c, 1));
            assert(freq_of(w) == t);
            lemma_sum_push(prev, (c, 1));
            assert(count_of(dl, c) == 0) by {
                if count_of(dl, c) > 0 {
                    assert(has_key(prev, c));
                }
            }
            assert forall|i: int| 0 <= i < t.len() implies (#[trigger] t[i]).1 == count_of(
                w,
                t[i].0,
            ) && t[i].1 > 0 by {
                if i < prev.len() {
                    assert(t[i] == prev[i]);
                    assert(prev[i].0 != c);
                } else {
                    assert(t[i] == (c, 1usize));
                }
            }
            assert forall|x: char| count_of(w, x) > 0 implies has_key(t, x) by {
                if count_of(dl, x) > 0 {
                    assert(has_key(freq_of(dl), x));
                    let i = choose|i: int| 0 <= i < prev.len() && (#[trigger] prev[i]).0 == x;
                    assert(t[i].0 == x);
                } else {
                    assert(x == c);
                    assert(t[prev.len() as int].0 == c);
                }
            }
            assert forall|x: char| has_key(t, x) implies count_of(w, x) > 0 by {
                let i = choose|i: int| 0 <= i < t.len() && (#[trigger] t[i]).0 == x;
                if i < prev.len() {
                    assert(prev[i].0 == x);
                }
            }
            assert(distinct_keys(t)) by {
                assert forall|p: int, q: int| 0 <= p < q < t.len() implies (#[trigger] t[p]).0 != (
                #[trigger] t[q]).0 by {
                    if q < prev.len() {
                        assert(prev[p].0 != prev[q].0);
                    } else {
                        assert(prev[p].0 != c);
                    }
                }
            }
        }
    }
}

/// First profile entry keyed `c`, if any.
pub(crate) fn find_key(s: &[(char, usize)], c: char) -> (r: Option<usize>)
    ensures
        match r {
            Some(i) => i < s@.len() && s@[i as int].0 == c && (forall|j: int|
                0 <= j < i ==> (#[trigger] s@[j]).0 != c),
            None => !has_key(s@, c),
        },
{
    let n = s.len();
    let mut i: usize = 0;
    while i < n
        invariant
            i <= n,
            n == s@.len(),
            forall|j: int| 0 <= j < i ==> (#[trigger] s@[j]).0 != c,
        decreases n - i,
    {
        if vstd::slice::slice_index_get(s, i).0 == c {
            return Some(i);
        }
        i += 1;
    }
    None
}

/// One step of profile building: count one more occurrence of `c`.
fn freq_push(freq: &mut Vec<(char, usize)>, c: char, Ghost(w): Ghost<Seq<char>>)
    requires
        w.len() < usize::MAX,
        old(freq)@ == freq_of(w),
    ensures
        final(freq)@ == freq_of(w.push(c)),
{
    proof {
        lemma_freq_of_props(w);
        assert(w.push(c).drop_last() =~= w);
        assert(w.push(c).last() == c);
        crate::matching::lemma_count_le(w, c);
    }
    match find_key(freq.as_slice(), c) {
        Some(i) => {
            let entry = freq[i];
            proof {
                assert(freq@[i as int].1 == count_of(w, freq@[i as int].0));
            }
            freq[i] = (entry.0, entry.1 + 1);
            proof {
                let f = |p: (char, usize)|
                    if p.0 == c {
                        (p.0, (p.1 + 1) as usize)
                    } else {
                        p
                    };
                assert(has_key(freq_of(w), c)) by {
                    assert(freq_of(w)[i as int].0 == c);
                }
                assert(freq@ =~= freq_of(w).map_values(f)) by {
                    assert forall|j: int| 0 <= j < freq@.len() implies freq@[j] == f(
                        freq_of(w)[j],
                    ) by {
                        if j != i {
                            assert(freq_of(w)[j].0 != c);
                        }
                    }
                }
            }
        },
        None => {
            freq.push((c, 1));
            proof {
                assert(freq@ =~= freq_of(w).push((c, 1)));
            }
        },
    }
}

/// The frequency profile of a word: each distinct character with its
/// occurrence count, keyed in order of first appearance.
pub fn get_frequency(word: &str) -> (r: Vec<(char, usize)>)
    ensures
        r@ == freq_of(word@),
        word@.len() <= usize::MAX,
{
    let n = word.unicode_len();
    let mut freq: Vec<(char, usize)> = Vec::new();
    let mut i: usize = 0;
    while i < n
        invariant
            i <= n,
            n == word@.len(),
            freq@ == freq_of(word@.take(i as int)),
        decreases n - i,
    {
        let c = word.get_char(i);
        proof {
            assert(word@.take(i as int).push(c) =~= word@.take(i as int + 1));
        }
        freq_push(&mut freq, c, Ghost(word@.take(i as int)));
        i += 1;
    }
    proof {
        assert(word@.take(n as int) =~= word@);
    }
    freq
}

/// The frequency profile of a word normalized to upper case.
pub fn frequency_upper(word: &str) -> (r: Vec<(char, usize)>)
    ensures
        r@ == freq_of(word@.map_values(|c: char| upper_of(c))),
        word@.len() <= usize::MAX,
{
    let ghost u = word@.map_values(|c: char| upper_of(c));
    let n = word.unicode_len();
    let mut freq: Vec<(char, usize)> = Vec::new();
    let mut i: usize = 0;
    while i < n
        invariant
            i <= n,
            n == word@.len(),
            u == word@.map_values(|c: char| upper_of(c)),
            freq@ == freq_of(u.take(i as int)),
        decreases n - i,
    {
        let c = to_upper_letter(word.get_char(i));
        proof {
            assert(u.take(i as int).push(c) =~= u.take(i as int + 1));
        }
        freq_push(&mut freq, c, Ghost(u.take(i as int)));
        i += 1;
    }
    proof {
        assert(u.take(n as int) =~= u);
    }
    freq
}

/// One expected entry's contribution to the overlap score: the smaller
/// of the expected count and the actual count, 0 when absent.
pub open spec fn overlap_term(e: (char, usize), actual: Seq<(char, usize)>) -> nat {
    if has_key(actual, e.0) {
        if e.1 as nat <= lookup_count(actual, e.0) {
            e.1 as nat
        } else {
            lookup_count(actual, e.0)
        }
    } else {
        0
    }
}

/// The overlap score: for every expected entry, how much of its count
/// the actual profile covers.
pub open spec fn spec_overlap_score(expected: Seq<(char, usize)>, actual: Seq<(char, usize)>) -> nat
    decreases expected.len(),
{
    if expected.len() == 0 {
        0
    } else {
        overlap_term(expected[0], actual) + spec_overlap_score(expected.drop_first(), actual)
    }
}

/// One expected entry's contribution to the weighted score: its full
/// weight when the letter occurs at all, 0 otherwise.
pub open spec fn weighted_term(e: (char, usize), actual: Seq<(char, usize)>) -> nat {
    if has_key(actual, e.0) {
        e.1 as nat
    } else {
        0
    }
}

/// The presence-weighted score: the summed weights of the expected
/// letters that occur in the actual profile at least once.
pub open spec fn spec_weighted_score(
    expected: Seq<(char, usize)>,
    actual: Seq<(char, usize)>,
) -> nat
    decreases expected.len(),
{
    if expected.len() == 0 {
        0
    } else {
        weighted_term(expected[0], actual) + spec_weighted_score(expected.drop_first(), actual)
    }
}

/// The overlap score never exceeds the expected counts' sum.
pub proof fn lemma_overlap_le(expected: Seq<(char, usize)>, actual: Seq<(char, usize)>)
    ensures
        spec_overlap_score(expected, actual) <= sum_counts(expected),
    decreases expected.len(),
{
    if expected.len() > 0 {
        lemma_overlap_le(expected.drop_first(), actual);
    }
}

/// The weighted score never exceeds the expected weights' sum.
pub proof fn lemma_weighted_le(expected: Seq<(char, usize)>, actual: Seq<(char, usize)>)
    ensures
        spec_weighted_score(expected, actual) <= sum_counts(expected),
    decreases expected.len(),
{
    if expected.len() > 0 {
        lemma_weighted_le(expected.drop_first(), actual);
    }
}

/// The overlap score of an actual letter-frequency profile against an
/// expected one: the sum, over expected entries, of how many of that
/// letter's expected occurrences the actual profile covers.
#[verifier::loop_isolation(false)]
pub fn score(expected: &[(char, usize)], frequency: &[(char, usize)]) -> (r: usize)
    requires
        spec_overlap_score(expected@, frequency@) <= usize::MAX,
    ensures
        r == spec_overlap_score(expected@, frequency@),
{
    let n = expected.len();
    let mut r: usize = 0;
    let mut i: usize = 0;
    proof {
        assert(expected@.skip(0) =~= expected@);
    }
    while i < n
        invariant
            i <= n,
            r + spec_overlap_score(expected@.skip(i as int), frequency@) == spec_overlap_score(
                expected@,
                frequency@,
            ),
        decreases n - i,
    {
        proof {
            assert(expected@.skip(i as int).drop_first() =~= expected@.skip(i as int + 1));
            assert(expected@.skip(i as int)[0] == expected@[i as int]);
        }
        let e = *vstd::slice::slice_index_get(expected, i);
        match find_key(frequency, e.0) {
            Some(idx) => {
                let a = vstd::slice::slice_index_get(frequency, idx).1;
                proof {
                    lemma_lookup_first(frequency@, e.0, idx as int);
                    assert(has_key(frequency@, e.0)) by {
                        assert(frequency@[idx as int].0 == e.0);
                    }
                }
                let add_amt = if a < e.1 {
                    a
                } else {
                    e.1
                };
                proof {
                    assert(add_amt == overlap_term(expected@[i as int], frequency@));
                }
                r = r + add_amt;
            },
            None => {
                proof {
                    assert(overlap_term(expected@[i as int], frequency@) == 0);
                }
            },
        }
        i += 1;
    }
    proof {
        assert(expected@.skip(n as int) =~= Seq::<(char, usize)>::empty());
    }
    r
}

/// The presence-weighted score of an actual profile against a table of
/// letter weights: the sum of the weights of the letters present.
#[verifier::loop_isolation(false)]
pub fn weighted_score(expected: &[(char, usize)], frequency: &[(char, usize)]) -> (r: usize)
    requires
        spec_weighted_score(expected@, frequency@) <= usize::MAX,
    ensures
        r == spec_weighted_score(expected@, frequency@),
{
    let n = expected.len();
    let mut r: usize = 0;
    let mut i: usize = 0;
    proof {
        assert(expected@.skip(0) =~= expected@);
    }
    while i < n
        invariant
            i <= n,
            r + spec_weighted_score(expected@.skip(i as int), frequency@) == spec_weighted_score(
                expected@,
                frequency@,
            ),
        decreases n - i,
    {
        proof {
            assert(expected@.skip(i as int).drop_first() =~= expected@.skip(i as int + 1));
            assert(expected@.skip(i as int)[0] == expected@[i as int]);
        }
        let e = *vstd::slice::slice_index_get(expected, i);
        match find_key(frequency, e.0) {
            Some(idx) => {
                proof {
                    assert(has_key(frequency@, e.0)) by {
                        assert(frequency@[idx as int].0 == e.0);
                    }
                    assert(weighted_term(expected@[i as int], frequency@) == e.1);
                }
                r = r + e.1;
            },
            None => {
                proof {
                    assert(weighted_term(expected@[i as int], frequency@) == 0);
                }
            },
        }
        i += 1;
    }
    proof {
        assert(expected@.skip(n as int) =~= Seq::<(char, usize)>::empty());
    }
    r
}

} // verus!
