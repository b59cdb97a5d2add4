//! Corpus matching: whether one candidate word satisfies a clue, and
//! the stable filter of a word list down to the satisfying words.

use vstd::prelude::*;
use crate::clue::ClueView;
use crate::clue::LetterInfo;
use crate::clue::SpecPattern;
use crate::clue::WordClue;
use crate::clue::WordCluePattern;
use crate::clue::has_letter;
use crate::clue::letter_info;
use crate::clue::letters_map;
use crate::clue::lemma_letters_map_dom;
use crate::clue::lemma_letters_map_index;

verus! {

/// How many positions of `s` hold the character `c`.
pub open spec fn count_of(s: Seq<char>, c: char) -> nat
    decreases s.len(),
{
    if s.len() == 0 {
        0
    } else {
        count_of(s.drop_last(), c) + (if s.last() == c {
            1nat
        } else {
            0nat
        })
    }
}

/// The character at one position satisfies the positional constraint.
pub open spec fn pattern_sat(p: SpecPattern, c: char) -> bool {
    match p {
        SpecPattern::Letter(l) => c == l,
        SpecPattern::Exclude(s) => !s.contains(c),
    }
}

/// An occurrence count satisfies a count constraint.
pub open spec fn counts_sat(info: LetterInfo, n: nat) -> bool {
    if info.exact {
        n == info.count
    } else {
        n >= info.count
    }
}

/// A word matches a clue: same length as the pattern, every position
/// satisfies its positional constraint, and every constrained letter's
/// occurrence count satisfies its count constraint.
pub open spec fn word_matches(c: ClueView, w: Seq<char>) -> bool {
    &&& w.len() == c.pattern.len()
    &&& forall|i: int| 0 <= i < w.len() ==> pattern_sat(#[trigger] c.pattern[i], w[i])
    &&& forall|l: char| #[trigger]
        c.letters.dom().contains(l) ==> counts_sat(c.letters[l], count_of(w, l))
}

/// Matching a fixed clue, as a predicate over words.
pub open spec fn matches_pred(c: ClueView) -> spec_fn(Seq<char>) -> bool {
    |w: Seq<char>| word_matches(c, w)
}

pub proof fn lemma_count_le(s: Seq<char>, c: char)
    ensures
        count_of(s, c) <= s.len(),
    decreases s.len(),
{
    if s.len() > 0 {
        lemma_count_le(s.drop_last(), c);
    }
}

pub proof fn lemma_count_push(s: Seq<char>, x: char)
    ensures
        forall|c: char|
            count_of(s.push(x), c) == count_of(s, c) + (if x == c {
                1nat
            } else {
                0nat
            }),
{
    assert(s.push(x).drop_last() =~= s);
    assert(s.push(x).last() == x);
}

/// Count the occurrences of `c` in `word`.
fn count_char(word: &str, c: char) -> (r: usize)
    ensures
        r == count_of(word@, c),
{
    let n = word.unicode_len();
    let mut r: usize = 0;
    let mut i: usize = 0;
    while i < n
        invariant
            i <= n,
            n == word@.len(),
            r == count_of(word@.take(i as int), c),
            r <= i,
        decreases n - i,
    {
        proof {
            assert(word@.take(i as int + 1) =~= word@.take(i as int).push(word@[i as int]));
            lemma_count_push(word@.take(i as int), word@[i as int]);
        }
        if word.get_char(i) == c {
            r += 1;
        }
        i += 1;
    }
    proof {
        assert(word@.take(n as int) =~= word@);
    }
    r
}

/// Whether the vector holds the character.
fn vec_contains(v: &Vec<char>, c: char) -> (r: bool)
    ensures
        r == v@.contains(c),
{
    let n = v.len();
    let mut i: usize = 0;
    while i < n
        invariant
            i <= n,
            n == v@.len(),
            forall|j: int| 0 <= j < i ==> v@[j] != c,
        decreases n - i,
    {
        if v[i] == c {
            return true;
        }
        i += 1;
    }
    false
}

/// Decide whether one candidate word matches the clue.
#[verifier::loop_isolation(false)]
pub fn word_satisfies(clue: &WordClue, word: &str) -> (r: bool)
    requires
        clue.wf(),
    ensures
        r == word_matches(clue@, word@),
{
    let wl = word.unicode_len();
    if wl != clue.pattern.len() {
        return false;
    }
    let mut i: usize = 0;
    while i < wl
        invariant
            i <= wl,
            forall|j: int| 0 <= j < i ==> pattern_sat(#[trigger] clue@.pattern[j], word@[j]),
        decreases wl - i,
    {
        let ch = word.get_char(i);
        match &clue.pattern[i] {
            WordCluePattern::Letter(l) => {
                if ch != *l {
                    proof {
                        assert(!pattern_sat(clue@.pattern[i as int], word@[i as int]));
                    }
                    return false;
                }
            },
            WordCluePattern::Exclude(v) => {
                if vec_contains(v, ch) {
                    proof {
                        assert(!pattern_sat(clue@.pattern[i as int], word@[i as int]));
                    }
                    return false;
                }
            },
        }
        proof {
            assert(pattern_sat(clue@.pattern[i as int], word@[i as int]));
        }
        i += 1;
    }
    let ln = clue.letters.len();
    let mut k: usize = 0;
    while k < ln
        invariant
            k <= ln,
            forall|j: int|
                0 <= j < k ==> counts_sat(
                    letter_info(#[trigger] clue.letters@[j]),
                    count_of(word@, clue.letters@[j].letter),
                ),
        decreases ln - k,
    {
        let e = clue.letters[k];
        let n = count_char(word, e.letter);
        let ok = if e.exact {
            n == e.count
        } else {
            n >= e.count
        };
        if !ok {
            proof {
                lemma_letters_map_dom(clue.letters@);
                lemma_letters_map_index(clue.letters@);
                assert(clue.letters@[k as int] == e);
                assert(has_letter(clue.letters@, e.letter));
                assert(clue@.letters.dom().contains(e.letter));
                assert(clue@.letters[clue.letters@[k as int].letter] == letter_info(
                    clue.letters@[k as int],
                ));
                assert(clue@.letters[e.letter] == letter_info(e));
                assert(!counts_sat(clue@.letters[e.letter], count_of(word@, e.letter)));
            }
            return false;
        }
        k += 1;
    }
    proof {
        lemma_letters_map_dom(clue.letters@);
        lemma_letters_map_index(clue.letters@);
        assert forall|l: char| #[trigger] clue@.letters.dom().contains(l) implies counts_sat(
            clue@.letters[l],
            count_of(word@, l),
        ) by {
            assert(has_letter(clue.letters@, l));
            let j = choose|j: int|
                0 <= j < clue.letters@.len() && (#[trigger] clue.letters@[j]).letter == l;
            assert(clue@.letters[clue.letters@[j].letter] == letter_info(clue.letters@[j]));
            assert(counts_sat(
                letter_info(clue.letters@[j]),
                count_of(word@, clue.letters@[j].letter),
            ));
        }
    }
    true
}

/// Keep, in order, exactly the words that match the clue.
#[verifier::loop_isolation(false)]
pub fn filter(clue: &WordClue, words: &[String]) -> (r: Vec<String>)
    requires
        clue.wf(),
    ensures
        r@.map_values(|s: String| s@) == words@.map_values(|s: String| s@).filter(
            matches_pred(clue@),
        ),
{
    let n = words.len();
    let mut out: Vec<String> = Vec::new();
    let mut i: usize = 0;
    while i < n
        invariant
            i <= n,
            out@.map_values(|s: String| s@) == words@.take(i as int).map_values(|s: String| s@)
                .filter(matches_pred(clue@)),
        decreases n - i,
    {
        let w = vstd::slice::slice_index_get(words, i);
        let ghost prefix = words@.take(i as int).map_values(|s: String| s@);
        proof {
            assert(words@.take(i as int + 1) =~= words@.take(i as int).push(words@[i as int]));
            assert(words@.take(i as int + 1).map_values(|s: String| s@) =~= prefix.push(
                words@[i as int]@,
            ));
            lemma_filter_push(prefix, words@[i as int]@, matches_pred(clue@));
        }
        if word_satisfies(clue, w.as_str()) {
            let copied = String::from_str(w.as_str());
            out.push(copied);
            proof {
                assert(out@.map_values(|s: String| s@) =~= words@.take(i as int + 1).map_values(
                    |s: String| s@,
                ).filter(matches_pred(clue@)));
            }
        } else {
            proof {
                assert(out@.map_values(|s: String| s@) =~= words@.take(i as int + 1).map_values(
                    |s: String| s@,
                ).filter(matches_pred(clue@)));
            }
        }
        i += 1;
    }
    proof {
        assert(words@.take(n as int) =~= words@);
    }
    out
}

pub proof fn lemma_filter_push(s: Seq<Seq<char>>, x: Seq<char>, pred: spec_fn(Seq<char>) -> bool)
    ensures
        s.push(x).filter(pred) == if pred(x) {
            s.filter(pred).push(x)
        } else {
            s.filter(pred)
        },
{
    reveal_with_fuel(Seq::filter, 2);
    assert(s.push(x).drop_last() =~= s);
    assert(s.push(x).last() == x);
}

/// A sequence whose members all satisfy the predicate filters to
/// itself.
pub proof fn lemma_filter_all(s: Seq<Seq<char>>, pred: spec_fn(Seq<char>) -> bool)
    requires
        forall|i: int| 0 <= i < s.len() ==> pred(#[trigger] s[i]),
    ensures
        s.filter(pred) == s,
    decreases s.len(),
{
    reveal_with_fuel(Seq::filter, 2);
    if s.len() > 0 {
        assert forall|i: int| 0 <= i < s.drop_last().len() implies pred(
            #[trigger] s.drop_last()[i],
        ) by {
            assert(s.drop_last()[i] == s[i]);
        }
        lemma_filter_all(s.drop_last(), pred);
        assert(pred(s.last()));
        assert(s.drop_last().push(s.last()) =~= s);
    }
}

/// Filtering is idempotent: filtering an already filtered word list
/// returns it unchanged.
pub proof fn lemma_filter_idempotent(c: ClueView, ws: Seq<Seq<char>>)
    ensures
        ws.filter(matches_pred(c)).filter(matches_pred(c)) == ws.filter(matches_pred(c)),
{
    broadcast use vstd::seq_lib::group_filter_ensures;

    let f = ws.filter(matches_pred(c));
    assert forall|i: int| 0 <= i < f.len() implies matches_pred(c)(#[trigger] f[i]) by {
        assert(matches_pred(c)(f[i]));
    }
    lemma_filter_all(f, matches_pred(c));
}

/// Every word the filter keeps re-validates on its own: it has the
/// pattern's length, satisfies every positional constraint, and meets
/// every letter-count constraint.
pub proof fn lemma_filtered_word_valid(c: ClueView, ws: Seq<Seq<char>>, i: int)
    requires
        0 <= i < ws.filter(matches_pred(c)).len(),
    ensures
        ws.filter(matches_pred(c))[i].len() == c.pattern.len(),
        forall|p: int|
            0 <= p < c.pattern.len() ==> pattern_sat(
                #[trigger] c.pattern[p],
                ws.filter(matches_pred(c))[i][p],
            ),
        forall|l: char| #[trigger]
            c.letters.dom().contains(l) ==> counts_sat(
                c.letters[l],
                count_of(ws.filter(matches_pred(c))[i], l),
            ),
{
    broadcast use vstd::seq_lib::group_filter_ensures;

    assert(matches_pred(c)(ws.filter(matches_pred(c))[i]));
    assert(word_matches(c, ws.filter(matches_pred(c))[i]));
}

} // verus!
