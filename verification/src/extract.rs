//! Clue extraction: turns one decoded guess into a single-guess clue,
//! including the duplicate-letter rule (a letter flagged absent that is
//! also present elsewhere in the same guess caps its count exactly).

use vstd::prelude::*;
use crate::clue::LetterAnswer;
use crate::clue::LetterAnswerType;
use crate::clue::LetterInfo;
use crate::clue::SpecPattern;
use crate::clue::WordAnswer;
use crate::clue::WordClue;
use crate::clue::WordClueLetter;
use crate::clue::WordCluePattern;
use crate::clue::distinct_letters;
use crate::clue::has_letter;
use crate::clue::letter_info;
use crate::clue::letters_map;
use crate::clue::lemma_letters_map_dom;
use crate::clue::lemma_letters_map_index;
use crate::clue::lemma_letters_map_push;
use crate::clue::lemma_letters_map_update;
use crate::itertools_support::sorted_dedup;

verus! {

/// The verdict says the letter occurs in the word (right or wrong spot).
pub open spec fn is_present(la: LetterAnswer) -> bool {
    la.answer == LetterAnswerType::Correct || la.answer == LetterAnswerType::Incorrect
}

/// How many positions of the guess report `l` as present.
pub open spec fn present_count(w: Seq<LetterAnswer>, l: char) -> nat
    decreases w.len(),
{
    if w.len() == 0 {
        0
    } else {
        present_count(w.drop_last(), l) + (if w.last().letter == l && is_present(w.last()) {
            1nat
        } else {
            0nat
        })
    }
}

/// Some position of the guess reports `l` as not in the word.
pub open spec fn absent_somewhere(w: Seq<LetterAnswer>, l: char) -> bool {
    exists|i: int|
        0 <= i < w.len() && (#[trigger] w[i]).letter == l && w[i].answer
            == LetterAnswerType::NotInWord
}

/// Letters the guess proves absent from the word entirely: flagged
/// absent and never present elsewhere in the same guess.
pub open spec fn global_excluded(w: Seq<LetterAnswer>) -> Set<char> {
    Set::new(|l: char| absent_somewhere(w, l) && present_count(w, l) == 0)
}

/// The positional constraint the guess yields at position `i`: the
/// letter itself when correct, otherwise this letter and every globally
/// excluded letter are forbidden here.
pub open spec fn extracted_pattern(w: Seq<LetterAnswer>, i: int) -> SpecPattern {
    if w[i].answer == LetterAnswerType::Correct {
        SpecPattern::Letter(w[i].letter)
    } else {
        SpecPattern::Exclude(global_excluded(w).insert(w[i].letter))
    }
}

/// The letter-count constraints the guess yields: one entry per letter
/// reported present, with its count of present positions; exact when
/// the same guess also flags the letter absent somewhere.
pub open spec fn extracted_letters(w: Seq<LetterAnswer>) -> Map<char, LetterInfo> {
    Map::new(
        |l: char| present_count(w, l) > 0,
        |l: char| (LetterInfo { count: present_count(w, l), exact: absent_somewhere(w, l) }),
    )
}

/// Letter map midway through absent-letter resolution: counts are
/// final, and exactness has been granted to the letters in `seen`.
pub open spec fn resolving_letters(w: Seq<LetterAnswer>, seen: Seq<char>) -> Map<char, LetterInfo> {
    Map::new(
        |l: char| present_count(w, l) > 0,
        |l: char| (LetterInfo { count: present_count(w, l), exact: seen.contains(l) }),
    )
}

/// Interim pattern entry before the global exclusions are folded in.
pub open spec fn pattern_entry_ok(w: Seq<LetterAnswer>, p: Seq<WordCluePattern>, i: int) -> bool {
    match p[i] {
        WordCluePattern::Letter(c) => w[i].answer == LetterAnswerType::Correct && c == w[i].letter,
        WordCluePattern::Exclude(v) => w[i].answer != LetterAnswerType::Correct && v@ == seq![
            w[i].letter,
        ],
    }
}

pub proof fn lemma_present_count_push(s: Seq<LetterAnswer>, x: LetterAnswer)
    ensures
        forall|l: char|
            present_count(s.push(x), l) == present_count(s, l) + (if x.letter == l && is_present(x) {
                1nat
            } else {
                0nat
            }),
{
    assert(s.push(x).drop_last() =~= s);
    assert(s.push(x).last() == x);
}

pub proof fn lemma_present_count_le(s: Seq<LetterAnswer>, l: char)
    ensures
        present_count(s, l) <= s.len(),
    decreases s.len(),
{
    if s.len() > 0 {
        lemma_present_count_le(s.drop_last(), l);
    }
}

pub proof fn lemma_absent_push(s: Seq<LetterAnswer>, x: LetterAnswer)
    ensures
        forall|l: char|
            absent_somewhere(s.push(x), l) <==> absent_somewhere(s, l) || (x.letter == l && x.answer
                == LetterAnswerType::NotInWord),
{
    assert forall|l: char|
        absent_somewhere(s.push(x), l) <==> absent_somewhere(s, l) || (x.letter == l && x.answer
            == LetterAnswerType::NotInWord) by {
        if absent_somewhere(s.push(x), l) {
            let i = choose|i: int|
                0 <= i < s.push(x).len() && (#[trigger] s.push(x)[i]).letter == l && s.push(x)[i].answer
                    == LetterAnswerType::NotInWord;
            if i < s.len() {
                assert(s[i] == s.push(x)[i]);
                assert(absent_somewhere(s, l));
            }
        }
        if absent_somewhere(s, l) {
            let i = choose|i: int|
                0 <= i < s.len() && (#[trigger] s[i]).letter == l && s[i].answer
                    == LetterAnswerType::NotInWord;
            assert(s.push(x)[i] == s[i]);
            assert(absent_somewhere(s.push(x), l));
        }
        if x.letter == l && x.answer == LetterAnswerType::NotInWord {
            assert(s.push(x)[s.len() as int] == x);
            assert(absent_somewhere(s.push(x), l));
        }
    }
}

pub proof fn lemma_take_succ_contains(s: Seq<char>, k: int)
    requires
        0 <= k < s.len(),
    ensures
        forall|c: char| #[trigger] s.take(k + 1).contains(c) <==> s.take(k).contains(c) || c == s[k],
{
    assert forall|c: char| s.take(k + 1).contains(c) <==> s.take(k).contains(c) || c == s[k] by {
        if s.take(k + 1).contains(c) {
            let i = choose|i: int| 0 <= i < s.take(k + 1).len() && #[trigger] s.take(k + 1)[i] == c;
            if i < k {
                assert(s.take(k)[i] == c);
            } else {
                assert(c == s[k]);
            }
        }
        if s.take(k).contains(c) {
            let i = choose|i: int| 0 <= i < s.take(k).len() && #[trigger] s.take(k)[i] == c;
            assert(s.take(k + 1)[i] == c);
        }
        if c == s[k] {
            assert(s.take(k + 1)[k] == c);
        }
    }
}

pub proof fn lemma_contains_push(s: Seq<char>, x: char)
    ensures
        forall|l: char| s.push(x).contains(l) <==> s.contains(l) || l == x,
{
    assert forall|l: char| s.push(x).contains(l) <==> s.contains(l) || l == x by {
        if s.push(x).contains(l) {
            let i = choose|i: int| 0 <= i < s.push(x).len() && s.push(x)[i] == l;
            if i < s.len() {
                assert(s[i] == l);
            }
        }
        if s.contains(l) {
            let i = choose|i: int| 0 <= i < s.len() && s[i] == l;
            assert(s.push(x)[i] == l);
        }
        if l == x {
            assert(s.push(x)[s.len() as int] == l);
        }
    }
}

pub proof fn lemma_to_set_concat(a: Seq<char>, b: Seq<char>)
    ensures
        (a + b).to_set() =~= a.to_set() + b.to_set(),
{
    assert forall|c: char| (a + b).to_set().contains(c) implies (a.to_set() + b.to_set()).contains(
        c,
    ) by {
        let i = choose|i: int| 0 <= i < (a + b).len() && (a + b)[i] == c;
        if i < a.len() {
            assert(a[i] == c);
        } else {
            assert(b[i - a.len()] == c);
        }
    }
    assert forall|c: char| (a.to_set() + b.to_set()).contains(c) implies (a + b).to_set().contains(
        c,
    ) by {
        if a.to_set().contains(c) {
            let i = choose|i: int| 0 <= i < a.len() && a[i] == c;
            assert((a + b)[i] == c);
        } else {
            let i = choose|i: int| 0 <= i < b.len() && b[i] == c;
            assert((a + b)[a.len() + i] == c);
        }
    }
}

/// First constraint entry for `l`, if any.
fn find_letter(clues: &Vec<WordClueLetter>, l: char) -> (r: Option<usize>)
    ensures
        match r {
            Some(i) => i < clues@.len() && clues@[i as int].letter == l,
            None => !has_letter(clues@, l),
        },
{
    let n = clues.len();
    let mut i: usize = 0;
    while i < n
        invariant
            i <= n,
            n == clues@.len(),
            forall|j: int| 0 <= j < i ==> (#[trigger] clues@[j]).letter != l,
        decreases n - i,
    {
        if clues[i].letter == l {
            return Some(i);
        }
        i += 1;
    }
    None
}

/// The count constraint after one more present occurrence of `l`.
pub open spec fn bumped_info(m: Map<char, LetterInfo>, l: char) -> LetterInfo {
    if m.dom().contains(l) {
        LetterInfo { count: m[l].count + 1, exact: m[l].exact }
    } else {
        LetterInfo { count: 1, exact: false }
    }
}

/// Record one more present occurrence of `l` in the constraint vector.
fn bump_letter(clues: &mut Vec<WordClueLetter>, l: char)
    requires
        distinct_letters(old(clues)@),
        letters_map(old(clues)@).dom().contains(l) ==> letters_map(old(clues)@)[l].count
            < usize::MAX,
    ensures
        distinct_letters(final(clues)@),
        letters_map(final(clues)@) == letters_map(old(clues)@).insert(
            l,
            bumped_info(letters_map(old(clues)@), l),
        ),
{
    proof {
        lemma_letters_map_dom(clues@);
        lemma_letters_map_index(clues@);
    }
    match find_letter(clues, l) {
        Some(i) => {
            let w = clues[i];
            proof {
                assert(has_letter(clues@, l));
                assert(letters_map(clues@)[clues@[i as int].letter] == letter_info(
                    clues@[i as int],
                ));
            }
            let updated = WordClueLetter { letter: w.letter, count: w.count + 1, exact: w.exact };
            proof {
                lemma_letters_map_update(clues@, i as int, updated);
            }
            clues[i] = updated;
            assert(distinct_letters(clues@)) by {
                assert forall|p: int, q: int| 0 <= p < q < clues@.len() implies
                    (#[trigger] clues@[p]).letter != (#[trigger] clues@[q]).letter by {
                    assert(old(clues)@[p].letter != old(clues)@[q].letter);
                    assert(clues@[p].letter == old(clues)@[p].letter);
                    assert(clues@[q].letter == old(clues)@[q].letter);
                }
            }
        }
        None => {
            proof {
                assert(!letters_map(clues@).dom().contains(l));
                lemma_letters_map_push(clues@, WordClueLetter { letter: l, count: 1, exact: false });
            }
            clues.push(WordClueLetter { letter: l, count: 1, exact: false });
            assert(distinct_letters(clues@)) by {
                assert forall|p: int, q: int| 0 <= p < q < clues@.len() implies
                    (#[trigger] clues@[p]).letter != (#[trigger] clues@[q]).letter by {
                    if q == clues@.len() - 1 {
                        assert(old(clues)@[p].letter != l);
                    } else {
                        assert(old(clues)@[p].letter != old(clues)@[q].letter);
                    }
                }
            }
        }
    }
}

/// Convert one decoded guess into a single-guess clue.
///
/// Correct verdicts pin their position and count toward the letter's
/// minimum; misplaced verdicts forbid their position and count as well;
/// absent verdicts forbid their position and, when the letter is
/// present elsewhere in the guess, cap its count exactly — otherwise
/// the letter is excluded at every non-fixed position.
#[verifier::loop_isolation(false)]
pub fn extract_clue(word: WordAnswer) -> (r: WordClue)
    ensures
        r.wf(),
        r@.pattern.len() == word@.len(),
        forall|i: int| 0 <= i < word@.len() ==> r@.pattern[i] == extracted_pattern(word@, i),
        r@.letters == extracted_letters(word@),
{
    let ghost w = word@;
    let n = word.len();
    let mut pattern: Vec<WordCluePattern> = Vec::new();
    let mut letter_clues: Vec<WordClueLetter> = Vec::new();
    let mut exclude: Vec<char> = Vec::new();

    let mut j: usize = 0;
    while j < n
        invariant
            j <= n,
            pattern@.len() == j,
            forall|i: int| 0 <= i < j ==> pattern_entry_ok(w, pattern@, i),
            distinct_letters(letter_clues@),
            letters_map(letter_clues@) == resolving_letters(w.take(j as int), Seq::<char>::empty()),
            forall|i: int|
                0 <= i < exclude@.len() ==> absent_somewhere(w.take(j as int), #[trigger] exclude@[i]),
            forall|l: char| absent_somewhere(w.take(j as int), l) ==> exclude@.contains(l),
        decreases n - j,
    {
        let la = word[j];
        let ghost pat0 = pattern@;
        proof {
            assert(w.take(j + 1) =~= w.take(j as int).push(w[j as int]));
            lemma_present_count_push(w.take(j as int), w[j as int]);
            lemma_absent_push(w.take(j as int), w[j as int]);
            lemma_present_count_le(w.take(j as int), la.letter);
        }
        match la.answer {
            LetterAnswerType::Correct => {
                pattern.push(WordCluePattern::Letter(la.letter));
                bump_letter(&mut letter_clues, la.letter);
                proof {
                    assert(pattern_entry_ok(w, pattern@, j as int));
                    assert(letters_map(letter_clues@) =~= resolving_letters(
                        w.take(j + 1),
                        Seq::<char>::empty(),
                    ));
                    assert forall|l: char| absent_somewhere(w.take(j + 1), l) implies
                        exclude@.contains(l) by {
                        assert(absent_somewhere(w.take(j as int), l));
                    }
                }
            },
            LetterAnswerType::Incorrect => {
                let mut ev: Vec<char> = Vec::new();
                ev.push(la.letter);
                proof {
                    assert(ev@ =~= seq![la.letter]);
                }
                pattern.push(WordCluePattern::Exclude(ev));
                bump_letter(&mut letter_clues, la.letter);
                proof {
                    assert(pattern_entry_ok(w, pattern@, j as int));
                    assert(letters_map(letter_clues@) =~= resolving_letters(
                        w.take(j + 1),
                        Seq::<char>::empty(),
                    ));
                    assert forall|l: char| absent_somewhere(w.take(j + 1), l) implies
                        exclude@.contains(l) by {
                        assert(absent_somewhere(w.take(j as int), l));
                    }
                }
            },
            LetterAnswerType::NotInWord => {
                let mut ev: Vec<char> = Vec::new();
                ev.push(la.letter);
                let ghost ex0 = exclude@;
                proof {
                    assert(ev@ =~= seq![la.letter]);
                    lemma_contains_push(exclude@, la.letter);
                }
                pattern.push(WordCluePattern::Exclude(ev));
                exclude.push(la.letter);
                proof {
                    assert(pattern_entry_ok(w, pattern@, j as int));
                    assert(letters_map(letter_clues@) =~= resolving_letters(
                        w.take(j + 1),
                        Seq::<char>::empty(),
                    ));
                    assert forall|l: char| absent_somewhere(w.take(j + 1), l) implies
                        exclude@.contains(l) by {
                        assert(exclude@ == ex0.push(la.letter));
                        if absent_somewhere(w.take(j as int), l) {
                            assert(ex0.contains(l));
                        } else {
                            assert(l == la.letter);
                        }
                    }
                    assert forall|i: int| 0 <= i < exclude@.len() implies absent_somewhere(
                        w.take(j + 1),
                        #[trigger] exclude@[i],
                    ) by {
                        if i < ex0.len() {
                            assert(exclude@[i] == ex0[i]);
                            assert(absent_somewhere(w.take(j as int), ex0[i]));
                        } else {
                            assert(exclude@[i] == la.letter);
                        }
                    }
                }
            },
        }
        proof {
            assert forall|i: int| 0 <= i < j + 1 implies pattern_entry_ok(w, pattern@, i) by {
                if i < j {
                    assert(pattern_entry_ok(w, pat0, i));
                    assert(pattern@[i] == pat0[i]);
                }
            }
        }
        j += 1;
    }
    proof {
        assert(w.take(n as int) =~= w);
        assert(letters_map(letter_clues@) =~= resolving_letters(w, exclude@.take(0)));
    }

    // Resolve the pending absent letters: a letter that is also present
    // in this same guess gets an exact count; the rest are globally
    // excluded from the word.
    let m = exclude.len();
    let mut global_ex: Vec<char> = Vec::new();
    let mut k: usize = 0;
    while k < m
        invariant
            k <= m,
            distinct_letters(letter_clues@),
            letters_map(letter_clues@) == resolving_letters(w, exclude@.take(k as int)),
            forall|c: char|
                #[trigger] global_ex@.contains(c) <==> exclude@.take(k as int).contains(c)
                    && present_count(w, c) == 0,
        decreases m - k,
    {
        let e = exclude[k];
        proof {
            lemma_take_succ_contains(exclude@, k as int);
            assert(e == exclude@[k as int]);
            lemma_letters_map_dom(letter_clues@);
            lemma_letters_map_index(letter_clues@);
        }
        match find_letter(&letter_clues, e) {
            Some(idx) => {
                let wcl = letter_clues[idx];
                let updated = WordClueLetter { letter: wcl.letter, count: wcl.count, exact: true };
                proof {
                    assert(has_letter(letter_clues@, e));
                    assert(letters_map(letter_clues@).dom().contains(e));
                    assert(present_count(w, e) > 0);
                    lemma_letters_map_update(letter_clues@, idx as int, updated);
                }
                let ghost before = letter_clues@;
                letter_clues[idx] = updated;
                proof {
                    assert(distinct_letters(letter_clues@)) by {
                        assert forall|p: int, q: int| 0 <= p < q < letter_clues@.len() implies
                            (#[trigger] letter_clues@[p]).letter != (
                            #[trigger] letter_clues@[q]).letter by {
                            assert(before[p].letter != before[q].letter);
                            assert(letter_clues@[p].letter == before[p].letter);
                            assert(letter_clues@[q].letter == before[q].letter);
                        }
                    }
                    assert(letters_map(letter_clues@) =~= resolving_letters(
                        w,
                        exclude@.take(k as int + 1),
                    ));
                    assert forall|c: char| #[trigger] global_ex@.contains(c) <==> exclude@.take(
                        k as int + 1,
                    ).contains(c) && present_count(w, c) == 0 by {
                        assert(exclude@.take(k as int + 1).contains(c) <==> exclude@.take(
                            k as int,
                        ).contains(c) || c == exclude@[k as int]);
                    }
                }
            },
            None => {
                let ghost gex0 = global_ex@;
                proof {
                    lemma_letters_map_dom(letter_clues@);
                    assert(!letters_map(letter_clues@).dom().contains(e));
                    assert(present_count(w, e) == 0);
                    lemma_contains_push(global_ex@, e);
                }
                global_ex.push(e);
                proof {
                    assert(letters_map(letter_clues@) =~= resolving_letters(
                        w,
                        exclude@.take(k as int + 1),
                    ));
                    assert forall|c: char| #[trigger] global_ex@.contains(c) <==> exclude@.take(
                        k as int + 1,
                    ).contains(c) && present_count(w, c) == 0 by {
                        assert(global_ex@ == gex0.push(e));
                        assert(global_ex@.contains(c) <==> gex0.contains(c) || c == e);
                        assert(exclude@.take(k as int + 1).contains(c) <==> exclude@.take(
                            k as int,
                        ).contains(c) || c == exclude@[k as int]);
                    }
                }
            },
        }
        k += 1;
    }
    proof {
        assert(exclude@.take(m as int) =~= exclude@);
        assert(global_ex@.to_set() =~= global_excluded(w)) by {
            assert forall|c: char| global_ex@.contains(c) implies global_excluded(w).contains(c) by {
                assert(exclude@.contains(c));
                let i = choose|i: int| 0 <= i < exclude@.len() && exclude@[i] == c;
                assert(absent_somewhere(w, exclude@[i]));
            }
        }
    }

    // Fold the global exclusions into every excluded-position set.
    let mut out_pattern: Vec<WordCluePattern> = Vec::new();
    let mut p: usize = 0;
    let p_len = pattern.len();
    while p < p_len
        invariant
            p <= p_len,
            out_pattern@.len() == p,
            forall|i: int| 0 <= i < p ==> (#[trigger] out_pattern@[i])@ == extracted_pattern(w, i),
        decreases p_len - p,
    {
        let entry = &pattern[p];
        let ghost out0 = out_pattern@;
        match entry {
            WordCluePattern::Letter(c) => {
                proof {
                    assert(pattern_entry_ok(w, pattern@, p as int));
                }
                out_pattern.push(WordCluePattern::Letter(*c));
                proof {
                    assert(out_pattern@[p as int]@ == extracted_pattern(w, p as int));
                }
            },
            WordCluePattern::Exclude(v) => {
                let mut cat: Vec<char> = Vec::new();
                let vl = v.len();
                let mut q: usize = 0;
                while q < vl
                    invariant
                        q <= vl,
                        cat@ == v@.take(q as int),
                    decreases vl - q,
                {
                    cat.push(v[q]);
                    proof {
                        assert(v@.take(q + 1) =~= v@.take(q as int).push(v@[q as int]));
                    }
                    q += 1;
                }
                let gl = global_ex.len();
                let mut g: usize = 0;
                while g < gl
                    invariant
                        g <= gl,
                        cat@ == v@ + global_ex@.take(g as int),
                    decreases gl - g,
                {
                    cat.push(global_ex[g]);
                    proof {
                        assert(global_ex@.take(g + 1) =~= global_ex@.take(g as int).push(
                            global_ex@[g as int],
                        ));
                        assert(v@ + global_ex@.take(g + 1) =~= (v@ + global_ex@.take(
                            g as int,
                        )).push(global_ex@[g as int]));
                    }
                    g += 1;
                }
                proof {
                    assert(v@.take(vl as int) =~= v@);
                    assert(global_ex@.take(gl as int) =~= global_ex@);
                }
                let sd = sorted_dedup(cat);
                proof {
                    lemma_to_set_concat(v@, global_ex@);
                    assert(pattern_entry_ok(w, pattern@, p as int));
                    assert(v@ == seq![w[p as int].letter]);
                    assert(v@.to_set() =~= Set::<char>::empty().insert(w[p as int].letter)) by {
                        assert(v@[0] == w[p as int].letter);
                    }
                    assert(sd@.to_set() =~= global_excluded(w).insert(w[p as int].letter));
                }
                out_pattern.push(WordCluePattern::Exclude(sd));
                proof {
                    assert(out_pattern@[p as int]@ == extracted_pattern(w, p as int));
                }
            },
        }
        proof {
            assert forall|i: int| 0 <= i < p + 1 implies (#[trigger] out_pattern@[i])@
                == extracted_pattern(w, i) by {
                if i < p {
                    assert(out0[i]@ == extracted_pattern(w, i));
                    assert(out_pattern@[i] == out0[i]);
                }
            }
        }
        p += 1;
    }

    let result = WordClue { pattern: out_pattern, letters: letter_clues };
    proof {
        assert(result@.letters =~= extracted_letters(w));
        assert(forall|i: int|
            0 <= i < w.len() ==> result@.pattern[i] == (#[trigger] result.pattern@[i])@);
    }
    result
}

/// A guess without repeated letters never yields an exact count: no
/// letter can be both present and flagged absent in it.
pub proof fn lemma_no_repeats_no_exact(w: Seq<LetterAnswer>)
    requires
        forall|i: int, j: int|
            0 <= i < j < w.len() ==> (#[trigger] w[i]).letter != (#[trigger] w[j]).letter,
    ensures
        forall|l: char| #[trigger]
            extracted_letters(w).dom().contains(l) ==> !extracted_letters(w)[l].exact,
{
    assert forall|l: char| #[trigger]
        extracted_letters(w).dom().contains(l) implies !extracted_letters(w)[l].exact by {
        lemma_present_count_pos(w, l);
        let i = choose|i: int| 0 <= i < w.len() && (#[trigger] w[i]).letter == l && is_present(w[i]);
        if absent_somewhere(w, l) {
            let j = choose|j: int|
                0 <= j < w.len() && (#[trigger] w[j]).letter == l && w[j].answer
                    == LetterAnswerType::NotInWord;
            assert(i != j);
            assert(w[i].letter != w[j].letter);
        }
    }
}

/// A letter reported present and also flagged absent in the same guess
/// gets an exact constraint whose count is its number of present
/// positions.
pub proof fn lemma_duplicate_letter_exact(w: Seq<LetterAnswer>, l: char)
    requires
        exists|i: int| 0 <= i < w.len() && (#[trigger] w[i]).letter == l && is_present(w[i]),
        absent_somewhere(w, l),
    ensures
        extracted_letters(w).dom().contains(l),
        extracted_letters(w)[l].exact,
        extracted_letters(w)[l].count == present_count(w, l),
{
    lemma_present_count_pos(w, l);
}

/// The count of present positions is positive exactly when one exists.
pub proof fn lemma_present_count_pos(w: Seq<LetterAnswer>, l: char)
    ensures
        present_count(w, l) > 0 <==> exists|i: int|
            0 <= i < w.len() && (#[trigger] w[i]).letter == l && is_present(w[i]),
    decreases w.len(),
{
    if w.len() > 0 {
        lemma_present_count_pos(w.drop_last(), l);
        if present_count(w, l) > 0 {
            if present_count(w.drop_last(), l) > 0 {
                let i = choose|i: int|
                    0 <= i < w.drop_last().len() && (#[trigger] w.drop_last()[i]).letter == l
                        && is_present(w.drop_last()[i]);
                assert(w[i].letter == l && is_present(w[i]));
            } else {
                assert(w[w.len() - 1].letter == l && is_present(w[w.len() - 1]));
            }
        }
        if exists|i: int| 0 <= i < w.len() && (#[trigger] w[i]).letter == l && is_present(w[i]) {
            let i = choose|i: int|
                0 <= i < w.len() && (#[trigger] w[i]).letter == l && is_present(w[i]);
            if i < w.len() - 1 {
                assert(w.drop_last()[i].letter == l && is_present(w.drop_last()[i]));
            }
        }
    }
}

} // verus!
