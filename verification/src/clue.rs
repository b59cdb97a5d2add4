//! Data model for feedback-derived constraints: verdicts, per-guess
//! answers, positional patterns, per-letter count constraints, and the
//! clue type that combines them.

use vstd::prelude::*;

verus! {

/// Per-letter feedback on one guessed letter: right letter in the right
/// position, right letter in the wrong position, or letter absent
/// (subject to the duplicate-letter rule, see `extract_clue`).
#[derive(Clone, Copy, Debug, PartialEq, Eq, Structural)]
pub enum LetterAnswerType {
    Correct,
    Incorrect,
    NotInWord,
}

/// One position of one guess: the guessed letter and its verdict.
#[derive(Clone, Copy, Debug, PartialEq, Eq, Structural)]
pub struct LetterAnswer {
    pub letter: char,
    pub answer: LetterAnswerType,
}

/// A whole guess: one `LetterAnswer` per position.
pub type WordAnswer = Vec<LetterAnswer>;

/// Constraint on one position of a candidate word: either the position
/// must hold exactly this letter, or it must hold none of these letters.
#[derive(Clone, Debug, PartialEq, Eq)]
pub enum WordCluePattern {
    Letter(char),
    Exclude(Vec<char>),
}

/// Count constraint for one letter: the candidate word must contain at
/// least `count` occurrences of `letter`; exactly `count` if `exact`.
#[derive(Clone, Copy, Debug, PartialEq, Eq, Structural)]
pub struct WordClueLetter {
    pub letter: char,
    pub count: usize,
    pub exact: bool,
}

/// Conjunction of positional constraints (one per position) and letter
/// count constraints (one entry per distinct letter mentioned).
#[derive(Clone, Debug, PartialEq, Eq)]
pub struct WordClue {
    pub pattern: Vec<WordCluePattern>,
    pub letters: Vec<WordClueLetter>,
}

/// Mathematical value of a positional constraint: an excluded-letter
/// set abstracts away order and duplicates of the stored vector.
#[verifier::ext_equal]
pub enum SpecPattern {
    Letter(char),
    Exclude(Set<char>),
}

/// Mathematical value of a letter count constraint.
#[verifier::ext_equal]
pub struct LetterInfo {
    pub count: nat,
    pub exact: bool,
}

/// Mathematical value of a clue: the pattern as a sequence of abstract
/// positional constraints, the letter constraints as a map from letter
/// to count constraint.
#[verifier::ext_equal]
pub struct ClueView {
    pub pattern: Seq<SpecPattern>,
    pub letters: Map<char, LetterInfo>,
}

impl View for WordCluePattern {
    type V = SpecPattern;

    open spec fn view(&self) -> SpecPattern {
        match self {
            WordCluePattern::Letter(c) => SpecPattern::Letter(*c),
            WordCluePattern::Exclude(v) => SpecPattern::Exclude(v@.to_set()),
        }
    }
}

pub open spec fn letter_info(w: WordClueLetter) -> LetterInfo {
    LetterInfo { count: w.count as nat, exact: w.exact }
}

/// The map that a vector of letter constraints stands for; later
/// entries win, so on letter-distinct vectors it is exact.
pub open spec fn letters_map(s: Seq<WordClueLetter>) -> Map<char, LetterInfo>
    decreases s.len(),
{
    if s.len() == 0 {
        Map::empty()
    } else {
        letters_map(s.drop_last()).insert(s.last().letter, letter_info(s.last()))
    }
}

/// No two entries constrain the same letter.
pub open spec fn distinct_letters(s: Seq<WordClueLetter>) -> bool {
    forall|i: int, j: int| 0 <= i < j < s.len() ==> (#[trigger] s[i]).letter != (#[trigger] s[j]).letter
}

/// Some entry constrains `l`.
pub open spec fn has_letter(s: Seq<WordClueLetter>, l: char) -> bool {
    exists|i: int| 0 <= i < s.len() && (#[trigger] s[i]).letter == l
}

impl View for WordClue {
    type V = ClueView;

    open spec fn view(&self) -> ClueView {
        ClueView {
            pattern: self.pattern@.map_values(|p: WordCluePattern| p@),
            letters: letters_map(self.letters@),
        }
    }
}

impl WordClue {
    /// Internal invariant: the letter-constraint vector has one entry
    /// per letter, so its map value carries every entry faithfully.
    pub open spec fn wf(self) -> bool {
        distinct_letters(self.letters@)
    }
}

pub proof fn lemma_letters_map_dom(s: Seq<WordClueLetter>)
    ensures
        forall|l: char| #[trigger] letters_map(s).dom().contains(l) <==> has_letter(s, l),
    decreases s.len(),
{
    if s.len() > 0 {
        lemma_letters_map_dom(s.drop_last());
        assert forall|l: char| #[trigger] letters_map(s).dom().contains(l) <==> has_letter(s, l) by {
            if letters_map(s).dom().contains(l) {
                if l == s.last().letter {
                    assert(s[s.len() - 1].letter == l);
                } else {
                    assert(letters_map(s.drop_last()).dom().contains(l));
                    assert(has_letter(s.drop_last(), l));
                    let i = choose|i: int| 0 <= i < s.drop_last().len() && (#[trigger] s.drop_last()[i]).letter == l;
                    assert(s.drop_last()[i] == s[i]);
                    assert(s[i].letter == l);
                }
            }
            if has_letter(s, l) {
                let i = choose|i: int| 0 <= i < s.len() && (#[trigger] s[i]).letter == l;
                if i < s.len() - 1 {
                    assert(s.drop_last()[i] == s[i]);
                    assert(has_letter(s.drop_last(), l));
                    assert(letters_map(s.drop_last()).dom().contains(l));
                }
            }
        }
    }
}

pub proof fn lemma_letters_map_index(s: Seq<WordClueLetter>)
    requires
        distinct_letters(s),
    ensures
        forall|i: int| 0 <= i < s.len() ==> letters_map(s)[(#[trigger] s[i]).letter] == letter_info(s[i]),
    decreases s.len(),
{
    if s.len() > 0 {
        assert(distinct_letters(s.drop_last())) by {
            assert forall|i: int, j: int| 0 <= i < j < s.drop_last().len() implies
                (#[trigger] s.drop_last()[i]).letter != (#[trigger] s.drop_last()[j]).letter by {
                assert(s[i].letter != s[j].letter);
            }
        }
        lemma_letters_map_index(s.drop_last());
        assert forall|i: int| 0 <= i < s.len() implies
            letters_map(s)[(#[trigger] s[i]).letter] == letter_info(s[i]) by {
            if i < s.len() - 1 {
                assert(s.drop_last()[i] == s[i]);
                assert(s[i].letter != s.last().letter);
            }
        }
    }
}

pub proof fn lemma_letters_map_push(s: Seq<WordClueLetter>, w: WordClueLetter)
    ensures
        letters_map(s.push(w)) == letters_map(s).insert(w.letter, letter_info(w)),
{
    assert(s.push(w).drop_last() =~= s);
    assert(s.push(w).last() == w);
}

pub proof fn lemma_letters_map_update(s: Seq<WordClueLetter>, i: int, w: WordClueLetter)
    requires
        distinct_letters(s),
        0 <= i < s.len(),
        s[i].letter == w.letter,
    ensures
        letters_map(s.update(i, w)) == letters_map(s).insert(w.letter, letter_info(w)),
    decreases s.len(),
{
    let t = s.update(i, w);
    if i == s.len() - 1 {
        assert(t.drop_last() =~= s.drop_last());
        assert(t.last() == w);
        assert(letters_map(t) == letters_map(s.drop_last()).insert(w.letter, letter_info(w)));
        assert(letters_map(s.drop_last()).insert(w.letter, letter_info(w)) =~=
            letters_map(s).insert(w.letter, letter_info(w)));
    } else {
        assert(distinct_letters(s.drop_last())) by {
            assert forall|p: int, q: int| 0 <= p < q < s.drop_last().len() implies
                (#[trigger] s.drop_last()[p]).letter != (#[trigger] s.drop_last()[q]).letter by {
                assert(s[p].letter != s[q].letter);
            }
        }
        assert(s.drop_last()[i] == s[i]);
        lemma_letters_map_update(s.drop_last(), i, w);
        assert(t.drop_last() =~= s.drop_last().update(i, w));
        assert(t.last() == s.last());
        assert(s[i].letter != s.last().letter);
        assert(letters_map(t) ==
            letters_map(s.drop_last()).insert(w.letter, letter_info(w)).insert(s.last().letter, letter_info(s.last())));
        assert(letters_map(s.drop_last()).insert(w.letter, letter_info(w)).insert(s.last().letter, letter_info(s.last())) =~=
            letters_map(s).insert(w.letter, letter_info(w)));
    }
}

/// The count constraint that results from folding `w` into a letter map
/// `m`: the maximum of the counts and the disjunction of the exactness
/// flags where `m` already constrains the letter, `w` alone otherwise.
pub open spec fn combined_info(m: Map<char, LetterInfo>, w: WordClueLetter) -> LetterInfo {
    if m.dom().contains(w.letter) {
        LetterInfo {
            count: if m[w.letter].count >= w.count as nat { m[w.letter].count } else { w.count as nat },
            exact: m[w.letter].exact || w.exact,
        }
    } else {
        letter_info(w)
    }
}

/// Fold one letter constraint into the constraint vector: take the
/// maximum count and the disjunction of exactness with an existing
/// entry for the same letter, or add a new entry.
pub fn merge_letter_clue(map: &mut Vec<WordClueLetter>, clue: WordClueLetter)
    requires
        distinct_letters(old(map)@),
    ensures
        distinct_letters(final(map)@),
        letters_map(final(map)@) == letters_map(old(map)@).insert(
            clue.letter,
            combined_info(letters_map(old(map)@), clue),
        ),
{
    let n = map.len();
    let mut i: usize = 0;
    while i < n
        invariant
            i <= n,
            n == map@.len(),
            map@ == old(map)@,
            distinct_letters(map@),
            forall|j: int| 0 <= j < i ==> (#[trigger] map@[j]).letter != clue.letter,
        decreases n - i,
    {
        if map[i].letter == clue.letter {
            let w = map[i];
            let new_count = if w.count >= clue.count { w.count } else { clue.count };
            let merged = WordClueLetter { letter: w.letter, count: new_count, exact: w.exact || clue.exact };
            proof {
                lemma_letters_map_dom(old(map)@);
                lemma_letters_map_index(old(map)@);
                assert(old(map)@[i as int] == w);
                assert(has_letter(old(map)@, clue.letter));
                assert(letters_map(old(map)@).dom().contains(clue.letter));
                assert(letters_map(old(map)@)[old(map)@[i as int].letter] == letter_info(old(map)@[i as int]));
                assert(letters_map(old(map)@)[clue.letter] == letter_info(w));
                lemma_letters_map_update(old(map)@, i as int, merged);
            }
            map[i] = merged;
            assert(distinct_letters(map@)) by {
                assert forall|p: int, q: int| 0 <= p < q < map@.len() implies
                    (#[trigger] map@[p]).letter != (#[trigger] map@[q]).letter by {
                    assert(old(map)@[p].letter != old(map)@[q].letter);
                    assert(map@[p].letter == old(map)@[p].letter);
                    assert(map@[q].letter == old(map)@[q].letter);
                }
            }
            return;
        }
        i += 1;
    }
    proof {
        lemma_letters_map_dom(old(map)@);
        assert(!has_letter(old(map)@, clue.letter));
        lemma_letters_map_push(old(map)@, clue);
    }
    map.push(clue);
    assert(distinct_letters(map@)) by {
        assert forall|p: int, q: int| 0 <= p < q < map@.len() implies
            (#[trigger] map@[p]).letter != (#[trigger] map@[q]).letter by {
            if q == map@.len() - 1 {
                assert(old(map)@[p].letter != clue.letter);
            } else {
                assert(old(map)@[p].letter != old(map)@[q].letter);
            }
        }
    }
}

} // verus!
