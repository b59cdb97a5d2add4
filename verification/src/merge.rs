//! Clue merging: combining the constraints of two clues into one
//! conjunctive clue, detecting contradictions.

use vstd::prelude::*;
use crate::clue::ClueView;
use crate::clue::LetterInfo;
use crate::clue::SpecPattern;
use crate::clue::WordClue;
use crate::clue::WordClueLetter;
use crate::clue::WordCluePattern;
use crate::clue::combined_info;
use crate::clue::distinct_letters;
use crate::clue::letter_info;
use crate::clue::letters_map;
use crate::clue::lemma_letters_map_dom;
use crate::clue::merge_letter_clue;
use crate::errors::ClueError;
use crate::extract::lemma_to_set_concat;
use crate::itertools_support::sorted_dedup;

verus! {

/// Two positional constraints agree unless they fix different letters.
pub open spec fn pats_compatible(a: SpecPattern, b: SpecPattern) -> bool {
    match (a, b) {
        (SpecPattern::Letter(x), SpecPattern::Letter(y)) => x == y,
        _ => true,
    }
}

/// The conjunction of two compatible positional constraints: a fixed
/// letter wins over an exclusion set; two exclusion sets unite.
pub open spec fn combine_pattern(a: SpecPattern, b: SpecPattern) -> SpecPattern {
    match (a, b) {
        (SpecPattern::Letter(x), _) => SpecPattern::Letter(x),
        (_, SpecPattern::Letter(y)) => SpecPattern::Letter(y),
        (SpecPattern::Exclude(s1), SpecPattern::Exclude(s2)) => SpecPattern::Exclude(s1 + s2),
    }
}

/// The conjunction of two count constraints on one letter: the larger
/// minimum, exact if either side is exact.
pub open spec fn combine_info(a: LetterInfo, b: LetterInfo) -> LetterInfo {
    LetterInfo {
        count: if a.count >= b.count {
            a.count
        } else {
            b.count
        },
        exact: a.exact || b.exact,
    }
}

/// The conjunction of two letter-constraint maps: letters in both are
/// combined, letters in one side pass through unchanged.
pub open spec fn combine_letters(a: Map<char, LetterInfo>, b: Map<char, LetterInfo>) -> Map<
    char,
    LetterInfo,
> {
    Map::new(
        |l: char| a.dom().contains(l) || b.dom().contains(l),
        |l: char|
            if a.dom().contains(l) && b.dom().contains(l) {
                combine_info(a[l], b[l])
            } else if a.dom().contains(l) {
                a[l]
            } else {
                b[l]
            },
    )
}

/// Two clues merge cleanly: equal pattern lengths and no position where
/// they fix different letters.
pub open spec fn merge_ok(a: ClueView, b: ClueView) -> bool {
    &&& a.pattern.len() == b.pattern.len()
    &&& forall|i: int|
        0 <= i < a.pattern.len() ==> pats_compatible(#[trigger] a.pattern[i], b.pattern[i])
}

/// The merged clue of two cleanly merging clues.
pub open spec fn merge_val(a: ClueView, b: ClueView) -> ClueView {
    ClueView {
        pattern: Seq::new(a.pattern.len(), |i: int| combine_pattern(a.pattern[i], b.pattern[i])),
        letters: combine_letters(a.letters, b.letters),
    }
}

/// The letter map after folding a vector of letter constraints into a
/// starting map, one entry at a time.
pub open spec fn fold_letters(m: Map<char, LetterInfo>, bs: Seq<WordClueLetter>) -> Map<
    char,
    LetterInfo,
>
    decreases bs.len(),
{
    if bs.len() == 0 {
        m
    } else {
        let prev = fold_letters(m, bs.drop_last());
        prev.insert(bs.last().letter, combined_info(prev, bs.last()))
    }
}

/// Folding a letter-distinct constraint vector into a map is the
/// symmetric combination with the map the vector stands for.
pub proof fn lemma_fold_letters(ma: Map<char, LetterInfo>, bs: Seq<WordClueLetter>)
    requires
        distinct_letters(bs),
    ensures
        fold_letters(ma, bs) == combine_letters(ma, letters_map(bs)),
    decreases bs.len(),
{
    if bs.len() == 0 {
        assert(fold_letters(ma, bs) =~= combine_letters(ma, letters_map(bs)));
    } else {
        assert(distinct_letters(bs.drop_last())) by {
            assert forall|p: int, q: int| 0 <= p < q < bs.drop_last().len() implies
                (#[trigger] bs.drop_last()[p]).letter != (#[trigger] bs.drop_last()[q]).letter by {
                assert(bs[p].letter != bs[q].letter);
            }
        }
        lemma_fold_letters(ma, bs.drop_last());
        lemma_letters_map_dom(bs.drop_last());
        assert(!crate::clue::has_letter(bs.drop_last(), bs.last().letter)) by {
            if crate::clue::has_letter(bs.drop_last(), bs.last().letter) {
                let i = choose|i: int|
                    0 <= i < bs.drop_last().len() && (#[trigger] bs.drop_last()[i]).letter
                        == bs.last().letter;
                assert(bs[i].letter == bs[bs.len() - 1].letter);
            }
        }
        assert(fold_letters(ma, bs) =~= combine_letters(ma, letters_map(bs)));
    }
}

/// Append the elements of two character vectors into one.
fn concat_chars(a: &Vec<char>, b: &Vec<char>) -> (r: Vec<char>)
    ensures
        r@ == a@ + b@,
{
    let mut r: Vec<char> = Vec::new();
    let an = a.len();
    let mut i: usize = 0;
    while i < an
        invariant
            i <= an,
            an == a@.len(),
            r@ == a@.take(i as int),
        decreases an - i,
    {
        r.push(a[i]);
        proof {
            assert(a@.take(i as int + 1) =~= a@.take(i as int).push(a@[i as int]));
        }
        i += 1;
    }
    proof {
        assert(a@.take(an as int) =~= a@);
    }
    let bn = b.len();
    let mut j: usize = 0;
    while j < bn
        invariant
            j <= bn,
            bn == b@.len(),
            r@ == a@ + b@.take(j as int),
        decreases bn - j,
    {
        r.push(b[j]);
        proof {
            assert(b@.take(j as int + 1) =~= b@.take(j as int).push(b@[j as int]));
            assert(a@ + b@.take(j as int + 1) =~= (a@ + b@.take(j as int)).push(b@[j as int]));
        }
        j += 1;
    }
    proof {
        assert(b@.take(bn as int) =~= b@);
    }
    r
}

/// Merge two clues into one conjunctive clue.
///
/// Fails with `PatternLengthMismatch` when the pattern lengths differ,
/// and with `PositionConflict` at the first position where the two
/// clues fix different letters; otherwise every position combines (a
/// fixed letter wins over exclusions, exclusion sets unite) and the
/// letter constraints combine per letter (larger minimum, exact if
/// either side is exact).
#[verifier::loop_isolation(false)]
pub fn merge(a: WordClue, b: WordClue) -> (r: Result<WordClue, ClueError>)
    requires
        a.wf(),
        b.wf(),
    ensures
        match r {
            Ok(c) => merge_ok(a@, b@) && c.wf() && c@ == merge_val(a@, b@),
            Err(e) => match e {
                ClueError::PatternLengthMismatch(x, y) => x == a@.pattern.len() && y
                    == b@.pattern.len() && x != y,
                ClueError::PositionConflict(i, x, y) => a@.pattern.len() == b@.pattern.len() && i
                    < a@.pattern.len() && a@.pattern[i as int] == SpecPattern::Letter(x)
                    && b@.pattern[i as int] == SpecPattern::Letter(y) && x != y && (forall|j: int|
                    0 <= j < i ==> pats_compatible(#[trigger] a@.pattern[j], b@.pattern[j])),
                _ => false,
            },
        },
{
    let ghost av = a@;
    let ghost bv = b@;
    let alen = a.pattern.len();
    let blen = b.pattern.len();
    if alen != blen {
        return Err(ClueError::PatternLengthMismatch(alen, blen));
    }
    let mut pattern: Vec<WordCluePattern> = Vec::new();
    let mut i: usize = 0;
    while i < alen
        invariant
            i <= alen,
            pattern@.len() == i,
            forall|j: int|
                0 <= j < i ==> pats_compatible(#[trigger] av.pattern[j], bv.pattern[j]),
            forall|j: int|
                0 <= j < i ==> (#[trigger] pattern@[j])@ == combine_pattern(
                    av.pattern[j],
                    bv.pattern[j],
                ),
        decreases alen - i,
    {
        let ghost pat0 = pattern@;
        let pa = &a.pattern[i];
        let pb = &b.pattern[i];
        match (pa, pb) {
            (WordCluePattern::Letter(x), WordCluePattern::Letter(y)) => {
                if *x == *y {
                    pattern.push(WordCluePattern::Letter(*x));
                } else {
                    return Err(ClueError::PositionConflict(i, *x, *y));
                }
            },
            (WordCluePattern::Letter(x), _) => {
                pattern.push(WordCluePattern::Letter(*x));
            },
            (_, WordCluePattern::Letter(y)) => {
                pattern.push(WordCluePattern::Letter(*y));
            },
            (WordCluePattern::Exclude(va), WordCluePattern::Exclude(vb)) => {
                let cat = concat_chars(va, vb);
                let sd = sorted_dedup(cat);
                proof {
                    lemma_to_set_concat(va@, vb@);
                }
                pattern.push(WordCluePattern::Exclude(sd));
            },
        }
        proof {
            assert(pattern@[i as int]@ == combine_pattern(
                av.pattern[i as int],
                bv.pattern[i as int],
            ));
            assert forall|j: int| 0 <= j < i + 1 implies (#[trigger] pattern@[j])@
                == combine_pattern(av.pattern[j], bv.pattern[j]) by {
                if j < i {
                    assert(pattern@[j] == pat0[j]);
                    assert(pat0[j]@ == combine_pattern(av.pattern[j], bv.pattern[j]));
                }
            }
        }
        i += 1;
    }

    let ghost bletters = b.letters@;
    let mut letters = a.letters;
    let bn = b.letters.len();
    let mut k: usize = 0;
    while k < bn
        invariant
            k <= bn,
            distinct_letters(letters@),
            letters_map(letters@) == fold_letters(av.letters, bletters.take(k as int)),
        decreases bn - k,
    {
        let w = b.letters[k];
        proof {
            assert(bletters.take(k as int + 1).drop_last() =~= bletters.take(k as int));
            assert(bletters.take(k as int + 1).last() == w);
        }
        merge_letter_clue(&mut letters, w);
        k += 1;
    }
    proof {
        assert(bletters.take(bn as int) =~= bletters);
        assert(distinct_letters(bletters));
        lemma_fold_letters(av.letters, bletters);
    }

    let result = WordClue { pattern, letters };
    proof {
        assert(result@ =~~= merge_val(av, bv));
    }
    Ok(result)
}

/// Combining letter-constraint maps is commutative.
pub proof fn lemma_combine_letters_commutative(a: Map<char, LetterInfo>, b: Map<char, LetterInfo>)
    ensures
        combine_letters(a, b) == combine_letters(b, a),
{
    assert(combine_letters(a, b) =~= combine_letters(b, a));
}

/// Combining letter-constraint maps is associative.
pub proof fn lemma_combine_letters_associative(
    a: Map<char, LetterInfo>,
    b: Map<char, LetterInfo>,
    c: Map<char, LetterInfo>,
)
    ensures
        combine_letters(a, combine_letters(b, c)) == combine_letters(combine_letters(a, b), c),
{
    assert(combine_letters(a, combine_letters(b, c)) =~= combine_letters(
        combine_letters(a, b),
        c,
    ));
}

/// Merging is commutative: when one order succeeds the other does too,
/// with the same merged clue.
pub proof fn lemma_merge_commutative(a: ClueView, b: ClueView)
    requires
        merge_ok(a, b),
    ensures
        merge_ok(b, a),
        merge_val(a, b) == merge_val(b, a),
{
    assert forall|i: int| 0 <= i < b.pattern.len() implies pats_compatible(
        #[trigger] b.pattern[i],
        a.pattern[i],
    ) by {
        assert(pats_compatible(a.pattern[i], b.pattern[i]));
    }
    lemma_combine_letters_commutative(a.letters, b.letters);
    assert forall|i: int| 0 <= i < a.pattern.len() implies combine_pattern(
        #[trigger] a.pattern[i],
        b.pattern[i],
    ) == combine_pattern(b.pattern[i], a.pattern[i]) by {
        assert(pats_compatible(a.pattern[i], b.pattern[i]));
        match (a.pattern[i], b.pattern[i]) {
            (SpecPattern::Exclude(s1), SpecPattern::Exclude(s2)) => {
                assert(s1 + s2 =~= s2 + s1);
            },
            _ => {},
        }
    }
    assert(merge_val(a, b) =~~= merge_val(b, a));
}

/// Merging is associative: for pairwise-mergeable clues, the two
/// groupings succeed together and agree on the merged clue.
pub proof fn lemma_merge_associative(a: ClueView, b: ClueView, c: ClueView)
    requires
        merge_ok(a, b),
        merge_ok(b, c),
    ensures
        merge_ok(a, merge_val(b, c)) <==> merge_ok(merge_val(a, b), c),
        merge_ok(a, merge_val(b, c)) ==> merge_val(a, merge_val(b, c)) == merge_val(
            merge_val(a, b),
            c,
        ),
{
    let bc = merge_val(b, c);
    let ab = merge_val(a, b);
    assert forall|i: int| 0 <= i < a.pattern.len() implies (pats_compatible(
        #[trigger] a.pattern[i],
        bc.pattern[i],
    ) <==> pats_compatible(ab.pattern[i], c.pattern[i])) by {
        assert(bc.pattern[i] == combine_pattern(b.pattern[i], c.pattern[i]));
        assert(ab.pattern[i] == combine_pattern(a.pattern[i], b.pattern[i]));
        assert(pats_compatible(a.pattern[i], b.pattern[i]));
        assert(pats_compatible(b.pattern[i], c.pattern[i]));
    }
    if merge_ok(a, bc) {
        lemma_combine_letters_associative(a.letters, b.letters, c.letters);
        assert forall|i: int| 0 <= i < a.pattern.len() implies combine_pattern(
            #[trigger] a.pattern[i],
            bc.pattern[i],
        ) == combine_pattern(ab.pattern[i], c.pattern[i]) by {
            assert(bc.pattern[i] == combine_pattern(b.pattern[i], c.pattern[i]));
            assert(ab.pattern[i] == combine_pattern(a.pattern[i], b.pattern[i]));
            match (a.pattern[i], b.pattern[i], c.pattern[i]) {
                (
                    SpecPattern::Exclude(s1),
                    SpecPattern::Exclude(s2),
                    SpecPattern::Exclude(s3),
                ) => {
                    assert(s1 + (s2 + s3) =~= (s1 + s2) + s3);
                },
                _ => {},
            }
        }
        assert(merge_val(a, bc) =~~= merge_val(ab, c));
    }
}

/// Merging a clue with itself gives the clue back.
pub proof fn lemma_merge_self(a: ClueView)
    ensures
        merge_ok(a, a),
        merge_val(a, a) == a,
{
    assert forall|i: int| 0 <= i < a.pattern.len() implies combine_pattern(
        #[trigger] a.pattern[i],
        a.pattern[i],
    ) == a.pattern[i] by {
        match a.pattern[i] {
            SpecPattern::Exclude(s) => {
                assert(s + s =~= s);
            },
            _ => {},
        }
    }
    assert(combine_letters(a.letters, a.letters) =~= a.letters);
    assert(merge_val(a, a) =~~= a);
}

} // verus!
