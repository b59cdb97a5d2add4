//! The request-level operations: fold guess tokens into one clue,
//! filter the right corpus bucket, and rank a bucket's words by the
//! two frequency scores, returning the full tie set.

use vstd::prelude::*;
use crate::clue::ClueView;
use crate::clue::WordClue;
use crate::corpus::bucket_of;
use crate::corpus::get_words;
use crate::corpus::word_views;
use crate::errors::ClueError;
use crate::extract::extract_clue;
use crate::extract::extracted_letters;
use crate::extract::extracted_pattern;
use crate::matching::matches_pred;
use crate::merge::merge;
use crate::merge::merge_ok;
use crate::merge::merge_val;
use crate::parse::decoded_token;
use crate::parse::extract_answer;
use crate::parse::token_valid;
use crate::parse::upper_of;
use crate::rank::freq_of;
use crate::rank::frequency_upper;
use crate::rank::get_frequency;
use crate::rank::lemma_freq_of_props;
use crate::rank::lemma_overlap_le;
use crate::rank::lemma_weighted_le;
use crate::rank::score;
use crate::rank::spec_overlap_score;
use crate::rank::spec_weighted_score;
use crate::rank::sum_counts;
use crate::rank::weighted_score;

verus! {

/// The clue a single decoded guess stands for.
pub open spec fn clue_of_answer(w: Seq<crate::clue::LetterAnswer>) -> ClueView {
    ClueView {
        pattern: Seq::new(w.len(), |i: int| extracted_pattern(w, i)),
        letters: extracted_letters(w),
    }
}

/// Folding a sequence of clues into an accumulator succeeds when every
/// merge along the way does.
pub open spec fn fold_ok(acc: ClueView, rest: Seq<ClueView>) -> bool
    decreases rest.len(),
{
    if rest.len() == 0 {
        true
    } else {
        merge_ok(acc, rest[0]) && fold_ok(merge_val(acc, rest[0]), rest.drop_first())
    }
}

/// The clue a successful fold produces.
pub open spec fn fold_val(acc: ClueView, rest: Seq<ClueView>) -> ClueView
    decreases rest.len(),
{
    if rest.len() == 0 {
        acc
    } else {
        fold_val(merge_val(acc, rest[0]), rest.drop_first())
    }
}

/// The clues of a sequence of tokens, assuming each is valid.
pub open spec fn token_clues(tokens: Seq<String>) -> Seq<ClueView> {
    Seq::new(tokens.len(), |i: int| clue_of_answer(decoded_token(tokens[i]@)))
}

/// Parse every guess token, extract its clue, and fold all clues into
/// one; the last token's clue starts the fold, the others merge into
/// it in order.
///
/// Fails with `EmptyInput` on no tokens, `InvalidToken` on the first
/// token outside the grammar, and the first failing merge's error when
/// two clues contradict.
#[verifier::loop_isolation(false)]
pub fn clue_from_tokens(tokens: &Vec<String>) -> (r: Result<WordClue, ClueError>)
    ensures
        match r {
            Ok(c) => tokens@.len() > 0 && (forall|i: int|
                0 <= i < tokens@.len() ==> token_valid((#[trigger] tokens@[i])@)) && c.wf() && fold_ok(
                token_clues(tokens@).last(),
                token_clues(tokens@).drop_last(),
            ) && c@ == fold_val(
                token_clues(tokens@).last(),
                token_clues(tokens@).drop_last(),
            ),
            Err(e) => match e {
                ClueError::EmptyInput => tokens@.len() == 0,
                ClueError::InvalidToken(t) => exists|i: int|
                    0 <= i < tokens@.len() && !token_valid((#[trigger] tokens@[i])@) && t@
                        == tokens@[i]@ && (forall|j: int|
                        0 <= j < i ==> token_valid((#[trigger] tokens@[j])@)),
                _ => tokens@.len() > 0 && (forall|i: int|
                    0 <= i < tokens@.len() ==> token_valid((#[trigger] tokens@[i])@))
                    && !fold_ok(
                    token_clues(tokens@).last(),
                    token_clues(tokens@).drop_last(),
                ),
            },
        },
{
    let n = tokens.len();
    let mut clues: Vec<WordClue> = Vec::new();
    let mut i: usize = 0;
    while i < n
        invariant
            i <= n,
            clues@.len() == i,
            forall|j: int| 0 <= j < i ==> token_valid((#[trigger] tokens@[j])@),
            forall|j: int|
                0 <= j < i ==> (#[trigger] clues@[j]).wf() && clues@[j]@ == clue_of_answer(
                    decoded_token(tokens@[j]@),
                ),
        decreases n - i,
    {
        match extract_answer(tokens[i].as_str()) {
            Ok(wa) => {
                let c = extract_clue(wa);
                proof {
                    assert(c@ =~~= clue_of_answer(decoded_token(tokens@[i as int]@)));
                }
                clues.push(c);
            },
            Err(e) => {
                return Err(e);
            },
        }
        i += 1;
    }
    if n == 0 {
        return Err(ClueError::EmptyInput);
    }
    let ghost cviews = token_clues(tokens@);
    let ghost initv = cviews.last();
    let ghost restv = cviews.drop_last();
    let mut result = match clues.pop() {
        Some(c) => c,
        None => {
            return Err(ClueError::EmptyInput);
        },
    };
    proof {
        assert(result@ == initv);
        assert forall|j: int| 0 <= j < clues@.len() implies (#[trigger] clues@[j])@ == restv[j] by {}
        assert(restv.skip(0) =~= restv);
    }
    let mut k: usize = 0;
    let m = clues.len();
    while k < m
        invariant
            k <= m,
            clues@.len() == m - k,
            m == restv.len(),
            result.wf(),
            forall|j: int|
                0 <= j < clues@.len() ==> (#[trigger] clues@[j]).wf() && clues@[j]@ == restv[j
                    + k],
            fold_ok(initv, restv) == fold_ok(result@, restv.skip(k as int)),
            fold_ok(initv, restv) ==> fold_val(initv, restv) == fold_val(
                result@,
                restv.skip(k as int),
            ),
        decreases m - k,
    {
        let ghost clues0 = clues@;
        proof {
            assert(restv.skip(k as int).drop_first() =~= restv.skip(k as int + 1));
            assert(restv.skip(k as int)[0] == restv[k as int]);
        }
        let c = clues.remove(0);
        let ghost cv = c@;
        proof {
            assert(cv == restv[k as int]);
        }
        let merged = merge(result, c);
        match merged {
            Ok(next) => {
                result = next;
            },
            Err(e) => {
                proof {
                    assert(!merge_ok(result@, cv));
                    assert(!fold_ok(initv, restv));
                }
                return Err(e);
            },
        }
        proof {
            assert forall|j: int| 0 <= j < clues@.len() implies (#[trigger] clues@[j]).wf()
                && clues@[j]@ == restv[j + k + 1] by {
                assert(clues@[j] == clues0[j + 1]);
            }
        }
        k += 1;
    }
    proof {
        assert(restv.skip(m as int) =~= Seq::<ClueView>::empty());
    }
    Ok(result)
}

/// The corpus words consistent with the clue: the bucket of the clue's
/// length, filtered; an absent bucket yields the empty list.
pub fn words_for_clue(corpus: &[(usize, Vec<String>)], clue: &WordClue) -> (r: Vec<String>)
    requires
        clue.wf(),
    ensures
        match bucket_of(corpus@, clue.pattern@.len() as usize) {
            Option::None => r@.len() == 0,
            Option::Some(ws) => r@.map_values(|s: String| s@) == word_views(ws@).filter(
                matches_pred(clue@),
            ),
        },
{
    let length = clue.pattern.len();
    match get_words(corpus, length) {
        None => Vec::new(),
        Some(ws) => crate::matching::filter(clue, ws.as_slice()),
    }
}

/// The largest of a sequence of scores (0 when there are none).
pub open spec fn max_nat(s: Seq<nat>) -> nat
    decreases s.len(),
{
    if s.len() == 0 {
        0
    } else {
        let m = max_nat(s.drop_last());
        if s.last() >= m {
            s.last()
        } else {
            m
        }
    }
}

/// The words whose score equals `m`, in their original order.
pub open spec fn winners(ws: Seq<Seq<char>>, scores: Seq<nat>, m: nat) -> Seq<Seq<char>>
    decreases ws.len(),
{
    if ws.len() == 0 {
        Seq::empty()
    } else {
        winners(ws.drop_last(), scores.drop_last(), m) + (if scores.last() == m {
            seq![ws.last()]
        } else {
            Seq::empty()
        })
    }
}

pub open spec fn nat_scores(s: Seq<usize>) -> Seq<nat> {
    s.map_values(|x: usize| x as nat)
}

/// The single-element placeholder for an absent or empty bucket.
fn sentinel() -> (r: Vec<String>)
    ensures
        r@.map_values(|s: String| s@) == seq![Seq::<char>::empty()],
{
    let mut v: Vec<String> = Vec::new();
    v.push(String::from_str(""));
    proof {
        reveal_strlit("");
        assert(v@[0]@.len() == 0);
        assert(v@[0]@ =~= Seq::<char>::empty());
        assert(v@.map_values(|s: String| s@) =~= seq![Seq::<char>::empty()]);
    }
    v
}

/// All words sharing the maximum score, in input order.
#[verifier::loop_isolation(false)]
fn tie_set(words: &Vec<String>, scores: &Vec<usize>) -> (r: Vec<String>)
    requires
        words@.len() == scores@.len(),
    ensures
        r@.map_values(|s: String| s@) == winners(
            word_views(words@),
            nat_scores(scores@),
            max_nat(nat_scores(scores@)),
        ),
{
    let ghost wv = word_views(words@);
    let ghost ns = nat_scores(scores@);
    let n = words.len();
    let mut best: usize = 0;
    let mut i: usize = 0;
    while i < n
        invariant
            i <= n,
            best as nat == max_nat(ns.take(i as int)),
        decreases n - i,
    {
        proof {
            assert(ns.take(i as int + 1).drop_last() =~= ns.take(i as int));
            assert(ns.take(i as int + 1).last() == scores@[i as int] as nat);
        }
        if scores[i] > best {
            best = scores[i];
        }
        i += 1;
    }
    proof {
        assert(ns.take(n as int) =~= ns);
    }
    let mut out: Vec<String> = Vec::new();
    let mut k: usize = 0;
    while k < n
        invariant
            k <= n,
            best as nat == max_nat(ns),
            out@.map_values(|s: String| s@) == winners(
                wv.take(k as int),
                ns.take(k as int),
                max_nat(ns),
            ),
        decreases n - k,
    {
        proof {
            assert(wv.take(k as int + 1).drop_last() =~= wv.take(k as int));
            assert(ns.take(k as int + 1).drop_last() =~= ns.take(k as int));
            assert(wv.take(k as int + 1).last() == words@[k as int]@);
            assert(ns.take(k as int + 1).last() == scores@[k as int] as nat);
        }
        if scores[k] == best {
            out.push(String::from_str(words[k].as_str()));
        }
        proof {
            assert(out@.map_values(|s: String| s@) =~= winners(
                wv.take(k as int + 1),
                ns.take(k as int + 1),
                max_nat(ns),
            ));
        }
        k += 1;
    }
    proof {
        assert(wv.take(n as int) =~= wv);
        assert(ns.take(n as int) =~= ns);
    }
    out
}

/// The overlap score of every bucket word against the normalized
/// pattern's frequency profile.
pub open spec fn overlap_scores(pat: Seq<char>, ws: Seq<String>) -> Seq<nat> {
    Seq::new(
        ws.len(),
        |i: int|
            spec_overlap_score(
                freq_of(pat.map_values(|c: char| upper_of(c))),
                freq_of(ws[i]@),
            ),
    )
}

/// The words of the length bucket that best exercise the letters of
/// `pattern` (counted with multiplicity): the full tie set of the
/// maximal overlap score, in bucket order; the empty-string
/// placeholder when the bucket is absent or empty.
#[verifier::loop_isolation(false)]
pub fn most_letters(corpus: &[(usize, Vec<String>)], length: usize, pattern: &str) -> (r: Vec<
    String,
>)
    ensures
        match bucket_of(corpus@, length) {
            Option::None => r@.map_values(|s: String| s@) == seq![Seq::<char>::empty()],
            Option::Some(ws) => if ws@.len() == 0 {
                r@.map_values(|s: String| s@) == seq![Seq::<char>::empty()]
            } else {
                r@.map_values(|s: String| s@) == winners(
                    word_views(ws@),
                    overlap_scores(pattern@, ws@),
                    max_nat(overlap_scores(pattern@, ws@)),
                )
            },
        },
{
    let freq = frequency_upper(pattern);
    let ghost pu = pattern@.map_values(|c: char| upper_of(c));
    match get_words(corpus, length) {
        None => sentinel(),
        Some(ws) => {
            let n = ws.len();
            if n == 0 {
                return sentinel();
            }
            let mut scores: Vec<usize> = Vec::new();
            let mut i: usize = 0;
            while i < n
                invariant
                    i <= n,
                    n == ws@.len(),
                    freq@ == freq_of(pu),
                    pu.len() <= usize::MAX,
                    scores@.len() == i,
                    forall|j: int|
                        0 <= j < i ==> (#[trigger] scores@[j]) as nat == spec_overlap_score(
                            freq_of(pu),
                            freq_of(ws@[j]@),
                        ),
                decreases n - i,
            {
                let wf = get_frequency(ws[i].as_str());
                proof {
                    lemma_freq_of_props(pu);
                    lemma_overlap_le(freq@, wf@);
                }
                let s = score(freq.as_slice(), wf.as_slice());
                scores.push(s);
                i += 1;
            }
            let r = tie_set(ws, &scores);
            proof {
                assert(nat_scores(scores@) =~= overlap_scores(pattern@, ws@));
            }
            r
        },
    }
}

/// The weighted score of every bucket word against the bucket's
/// document-frequency profile.
pub open spec fn weighted_scores(profile: Seq<(char, usize)>, ws: Seq<String>) -> Seq<nat> {
    Seq::new(ws.len(), |i: int| spec_weighted_score(profile, freq_of(ws[i]@)))
}

pub proof fn lemma_bucket_of_index<T>(corpus: Seq<(usize, T)>, length: usize)
    ensures
        match bucket_of(corpus, length) {
            Option::Some(t) => exists|i: int|
                0 <= i < corpus.len() && (#[trigger] corpus[i]).1 == t,
            Option::None => true,
        },
    decreases corpus.len(),
{
    if corpus.len() > 0 {
        if corpus[0].0 == length {
            assert(corpus[0].1 == bucket_of(corpus, length)->Some_0);
        } else {
            lemma_bucket_of_index(corpus.drop_first(), length);
            match bucket_of(corpus, length) {
                Option::Some(t) => {
                    let i = choose|i: int|
                        0 <= i < corpus.drop_first().len() && (#[trigger] corpus.drop_first()[
                            i
                        ]).1 == t;
                    assert(corpus[i + 1].1 == t);
                },
                Option::None => {},
            }
        }
    }
}

/// The words of the length bucket that use its most document-frequent
/// letters: the full tie set of the maximal presence-weighted score
/// against the bucket's profile, in bucket order; the empty-string
/// placeholder when either table lacks the length or the bucket is
/// empty.
#[verifier::loop_isolation(false)]
pub fn most_common(
    corpus: &[(usize, Vec<String>)],
    profiles: &[(usize, Vec<(char, usize)>)],
    length: usize,
) -> (r: Vec<String>)
    requires
        forall|i: int|
            0 <= i < profiles@.len() ==> sum_counts((#[trigger] profiles@[i]).1@) <= usize::MAX,
    ensures
        match (bucket_of(corpus@, length), bucket_of(profiles@, length)) {
            (Option::Some(ws), Option::Some(mc)) => if ws@.len() == 0 {
                r@.map_values(|s: String| s@) == seq![Seq::<char>::empty()]
            } else {
                r@.map_values(|s: String| s@) == winners(
                    word_views(ws@),
                    weighted_scores(mc@, ws@),
                    max_nat(weighted_scores(mc@, ws@)),
                )
            },
            _ => r@.map_values(|s: String| s@) == seq![Seq::<char>::empty()],
        },
{
    let bucket = get_words(corpus, length);
    let profile = get_words(profiles, length);
    match (bucket, profile) {
        (Some(ws), Some(mc)) => {
            proof {
                lemma_bucket_of_index(profiles@, length);
            }
            let n = ws.len();
            if n == 0 {
                return sentinel();
            }
            let mut scores: Vec<usize> = Vec::new();
            let mut i: usize = 0;
            while i < n
                invariant
                    i <= n,
                    n == ws@.len(),
                    sum_counts(mc@) <= usize::MAX,
                    scores@.len() == i,
                    forall|j: int|
                        0 <= j < i ==> (#[trigger] scores@[j]) as nat == spec_weighted_score(
                            mc@,
                            freq_of(ws@[j]@),
                        ),
                decreases n - i,
            {
                let wf = get_frequency(ws[i].as_str());
                proof {
                    lemma_weighted_le(mc@, wf@);
                }
                let s = weighted_score(mc.as_slice(), wf.as_slice());
                scores.push(s);
                i += 1;
            }
            let r = tie_set(ws, &scores);
            proof {
                assert(nat_scores(scores@) =~= weighted_scores(mc@, ws@));
            }
            r
        },
        _ => sentinel(),
    }
}

} // verus!
