use clue_engine::api::clue_from_tokens;
use clue_engine::api::words_for_clue;
use clue_engine::clue::LetterAnswerType;
use clue_engine::clue::WordClueLetter;
use clue_engine::clue::WordCluePattern;
use clue_engine::errors::ClueError;
use clue_engine::extract::extract_clue;
use clue_engine::matching::filter;
use clue_engine::matching::word_satisfies;
use clue_engine::merge::merge;
use clue_engine::parse::extract_answer;
use clue_engine::parse::to_upper_letter;

fn strings(words: &[&str]) -> Vec<String> {
    words.iter().map(|w| w.to_string()).collect()
}

#[test]
fn parse_simple_token() {
    let wa = extract_answer("A0B1C2").unwrap();
    assert_eq!(wa.len(), 3);
    assert_eq!(wa[0].letter, 'A');
    assert!(matches!(wa[0].answer, LetterAnswerType::NotInWord));
    assert_eq!(wa[1].letter, 'B');
    assert!(matches!(wa[1].answer, LetterAnswerType::Incorrect));
    assert_eq!(wa[2].letter, 'C');
    assert!(matches!(wa[2].answer, LetterAnswerType::Correct));
}

#[test]
fn parse_normalizes_case() {
    let wa = extract_answer("a2b0").unwrap();
    assert_eq!(wa[0].letter, 'A');
    assert_eq!(wa[1].letter, 'B');
}

#[test]
fn parse_accepts_diacritic_letter() {
    let wa = extract_answer("\u{e7}2").unwrap();
    assert_eq!(wa[0].letter, '\u{c7}');
    assert_eq!(to_upper_letter('\u{e7}'), '\u{c7}');
    assert_eq!(to_upper_letter('\u{c7}'), '\u{c7}');
}

#[test]
fn parse_rejects_bad_tokens() {
    // odd length
    assert!(matches!(extract_answer("A"), Err(ClueError::InvalidToken(t)) if t == "A"));
    // empty
    assert!(matches!(extract_answer(""), Err(ClueError::InvalidToken(t)) if t == ""));
    // digit out of range
    assert!(matches!(extract_answer("A3"), Err(ClueError::InvalidToken(t)) if t == "A3"));
    // digit where a letter belongs
    assert!(matches!(extract_answer("1A"), Err(ClueError::InvalidToken(t)) if t == "1A"));
    // punctuation
    assert!(matches!(extract_answer("A0-1"), Err(ClueError::InvalidToken(t)) if t == "A0-1"));
}

// A single guess with no repeated letters never marks a letter exact.
#[test]
fn no_repeats_never_exact() {
    let clue = extract_clue(extract_answer("A0B1C2D0E1").unwrap());
    for entry in clue.letters.iter() {
        assert!(!entry.exact);
    }
}

// A letter both present and absent-flagged in one guess gets an exact
// count equal to its present occurrences.
#[test]
fn duplicate_letter_gets_exact_count() {
    let clue = extract_clue(extract_answer("S2S0A0B0C0").unwrap());
    let s_entry = clue
        .letters
        .iter()
        .find(|e| e.letter == 'S')
        .copied()
        .unwrap();
    assert_eq!(
        s_entry,
        WordClueLetter {
            letter: 'S',
            count: 1,
            exact: true
        }
    );
    // any candidate with two or more S's is rejected
    assert!(word_satisfies(&clue, "STONE"));
    assert!(!word_satisfies(&clue, "STOSS"));
}

// Scenario: one guess token against a 5-letter target.
#[test]
fn single_guess_clue_and_filter() {
    let clue = extract_clue(extract_answer("A0P1P2L0E0").unwrap());
    assert_eq!(clue.pattern.len(), 5);
    // A, L, E are absent everywhere; each excluded position also
    // forbids them, with the sets sorted and deduplicated.
    assert_eq!(clue.pattern[0], WordCluePattern::Exclude(vec!['A', 'E', 'L']));
    assert_eq!(
        clue.pattern[1],
        WordCluePattern::Exclude(vec!['A', 'E', 'L', 'P'])
    );
    assert_eq!(clue.pattern[2], WordCluePattern::Letter('P'));
    assert_eq!(clue.pattern[3], WordCluePattern::Exclude(vec!['A', 'E', 'L']));
    assert_eq!(clue.pattern[4], WordCluePattern::Exclude(vec!['A', 'E', 'L']));
    // P is the only letter known present: twice, not exactly.
    assert_eq!(
        clue.letters,
        vec![WordClueLetter {
            letter: 'P',
            count: 2,
            exact: false
        }]
    );
    // filtering keeps only words with P third, no P second, and none
    // of A, L, E anywhere.
    let words = strings(&["MOPPY", "SPPOT", "MOSSY", "POPIN", "MOPAL"]);
    let kept = filter(&clue, &words);
    assert_eq!(kept, strings(&["MOPPY", "POPIN"]));
}

// Filtering twice changes nothing.
#[test]
fn filter_is_idempotent() {
    let clue = extract_clue(extract_answer("A0P1P2L0E0").unwrap());
    let words = strings(&["MOPPY", "SPPOT", "MOSSY", "POPIN", "MOPAL"]);
    let once = filter(&clue, &words);
    let twice = filter(&clue, &once);
    assert_eq!(once, twice);
}

// Every kept word re-validates position by position and letter by
// letter.
#[test]
fn filtered_words_revalidate() {
    let clue = extract_clue(extract_answer("A0P1P2L0E0").unwrap());
    let words = strings(&["MOPPY", "SPPOT", "MOSSY", "POPIN", "MOPAL"]);
    for word in filter(&clue, &words) {
        let chars: Vec<char> = word.chars().collect();
        assert_eq!(chars.len(), clue.pattern.len());
        for (i, p) in clue.pattern.iter().enumerate() {
            match p {
                WordCluePattern::Letter(l) => assert_eq!(chars[i], *l),
                WordCluePattern::Exclude(set) => assert!(!set.contains(&chars[i])),
            }
        }
        for entry in clue.letters.iter() {
            let n = chars.iter().filter(|c| **c == entry.letter).count();
            if entry.exact {
                assert_eq!(n, entry.count);
            } else {
                assert!(n >= entry.count);
            }
        }
        assert!(word_satisfies(&clue, &word));
    }
}

// Merging a clue with itself gives the clue back.
#[test]
fn merge_with_self_is_identity() {
    let clue = extract_clue(extract_answer("A0P1P2L0E0").unwrap());
    let merged = merge(clue.clone(), clue.clone()).unwrap();
    assert_eq!(merged, clue);
}

// Merge order does not change the merged constraints.
#[test]
fn merge_is_commutative() {
    let a = extract_clue(extract_answer("A0P1P2L0E0").unwrap());
    let b = extract_clue(extract_answer("S1T0P2N1E0").unwrap());
    let ab = merge(a.clone(), b.clone()).unwrap();
    let ba = merge(b, a).unwrap();
    // positional constraints are canonical, so they are equal outright
    assert_eq!(ab.pattern, ba.pattern);
    // the letter maps agree entry for entry
    let mut ab_letters = ab.letters.clone();
    let mut ba_letters = ba.letters.clone();
    ab_letters.sort_by_key(|e| e.letter);
    ba_letters.sort_by_key(|e| e.letter);
    assert_eq!(ab_letters, ba_letters);
}

#[test]
fn merge_is_associative() {
    let a = extract_clue(extract_answer("A0P1P2L0E0").unwrap());
    let b = extract_clue(extract_answer("S1T0P2N1E0").unwrap());
    let c = extract_clue(extract_answer("R1I1P2U0D0").unwrap());
    let left = merge(a.clone(), merge(b.clone(), c.clone()).unwrap()).unwrap();
    let right = merge(merge(a, b).unwrap(), c).unwrap();
    assert_eq!(left.pattern, right.pattern);
    let mut ll = left.letters.clone();
    let mut rl = right.letters.clone();
    ll.sort_by_key(|e| e.letter);
    rl.sort_by_key(|e| e.letter);
    assert_eq!(ll, rl);
}

// Scenario: merging clues of pattern lengths 5 and 6.
#[test]
fn merge_length_mismatch_fails() {
    let five = extract_clue(extract_answer("A0B0C0D0E0").unwrap());
    let six = extract_clue(extract_answer("A0B0C0D0E0F0").unwrap());
    let r = merge(five, six);
    assert!(matches!(r, Err(ClueError::PatternLengthMismatch(5, 6))));
}

#[test]
fn merge_position_conflict_fails() {
    let a = extract_clue(extract_answer("A2X0").unwrap());
    let b = extract_clue(extract_answer("B2Y0").unwrap());
    let r = merge(a, b);
    assert!(matches!(r, Err(ClueError::PositionConflict(0, 'A', 'B'))));
}

#[test]
fn merge_fixed_letter_wins_over_exclusion() {
    let a = extract_clue(extract_answer("A2B1").unwrap());
    let b = extract_clue(extract_answer("A2C1").unwrap());
    let m = merge(a, b).unwrap();
    assert_eq!(m.pattern[0], WordCluePattern::Letter('A'));
    assert_eq!(m.pattern[1], WordCluePattern::Exclude(vec!['B', 'C']));
}

#[test]
fn merge_combines_letter_counts() {
    // B appears once in the first guess, twice in the second: the
    // merged constraint takes the maximum.
    let a = extract_clue(extract_answer("B1X0Y0").unwrap());
    let b = extract_clue(extract_answer("B1B1Z0").unwrap());
    let m = merge(a, b).unwrap();
    let b_entry = m.letters.iter().find(|e| e.letter == 'B').copied().unwrap();
    assert_eq!(
        b_entry,
        WordClueLetter {
            letter: 'B',
            count: 2,
            exact: false
        }
    );
}

#[test]
fn clue_from_tokens_folds_guesses() {
    let tokens = strings(&["A0P1P2L0E0"]);
    let direct = extract_clue(extract_answer("A0P1P2L0E0").unwrap());
    let folded = clue_from_tokens(&tokens).unwrap();
    assert_eq!(folded, direct);
}

#[test]
fn clue_from_tokens_rejects_empty_input() {
    let r = clue_from_tokens(&Vec::new());
    assert!(matches!(r, Err(ClueError::EmptyInput)));
}

#[test]
fn clue_from_tokens_reports_first_bad_token() {
    let tokens = strings(&["A2B0", "C9", "D4"]);
    let r = clue_from_tokens(&tokens);
    assert!(matches!(r, Err(ClueError::InvalidToken(t)) if t == "C9"));
}

#[test]
fn clue_from_tokens_reports_merge_conflicts() {
    let tokens = strings(&["A2X0", "B2Y0"]);
    let r = clue_from_tokens(&tokens);
    // the last token's clue starts the fold, so B is its fixed letter
    assert!(matches!(r, Err(ClueError::PositionConflict(0, 'B', 'A'))));
}

#[test]
fn words_for_clue_uses_length_bucket() {
    let corpus = vec![
        (2, strings(&["AT", "ON"])),
        (5, strings(&["MOPPY", "SPPOT", "POPIN"])),
    ];
    let clue = clue_from_tokens(&strings(&["A0P1P2L0E0"])).unwrap();
    assert_eq!(words_for_clue(&corpus, &clue), strings(&["MOPPY", "POPIN"]));
    // no bucket of length 5: empty result, not an error
    let short_corpus = vec![(2, strings(&["AT"]))];
    assert_eq!(words_for_clue(&short_corpus, &clue), Vec::<String>::new());
}
