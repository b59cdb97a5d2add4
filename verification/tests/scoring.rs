use clue_engine::api::most_common;
use clue_engine::api::most_letters;
use clue_engine::corpus::build_corpus;
use clue_engine::corpus::build_profiles;
use clue_engine::corpus::document_frequency;
use clue_engine::corpus::get_words;
use clue_engine::rank::get_frequency;
use clue_engine::rank::frequency_upper;
use clue_engine::rank::score;
use clue_engine::rank::weighted_score;

fn strings(words: &[&str]) -> Vec<String> {
    words.iter().map(|w| w.to_string()).collect()
}

#[test]
fn frequency_counts_each_distinct_letter_once() {
    assert_eq!(get_frequency("BANANA"), vec![('B', 1), ('A', 3), ('N', 2)]);
    assert_eq!(get_frequency(""), Vec::<(char, usize)>::new());
    assert_eq!(frequency_upper("Banana"), vec![('B', 1), ('A', 3), ('N', 2)]);
}

#[test]
fn overlap_score_sums_covered_counts() {
    let expected = vec![('A', 2), ('B', 1), ('Z', 4)];
    let actual = get_frequency("ABA");
    // A: min(2, 2); B: min(1, 1); Z absent: 0
    assert_eq!(score(&expected, &actual), 3);
    // a letter with more occurrences than expected only counts the
    // expected amount
    assert_eq!(score(&[('A', 1)], &get_frequency("AAA")), 1);
    assert_eq!(score(&[], &actual), 0);
}

#[test]
fn weighted_score_counts_presence_only() {
    let expected = vec![('A', 7), ('B', 2), ('C', 5)];
    // A and B occur (count irrelevant), C does not
    assert_eq!(weighted_score(&expected, &get_frequency("ABBBA")), 9);
    assert_eq!(weighted_score(&expected, &get_frequency("XYZ")), 0);
}

#[test]
fn get_words_finds_length_bucket() {
    let corpus = vec![(2, strings(&["AT"])), (3, strings(&["CAT", "DOG"]))];
    assert_eq!(get_words(&corpus, 3), Some(&strings(&["CAT", "DOG"])));
    assert_eq!(get_words(&corpus, 4), None);
}

#[test]
fn build_corpus_groups_by_length_ascending() {
    let lines = strings(&["horse", "dog", "cat", "at", "mouse"]);
    let corpus = build_corpus(&lines);
    assert_eq!(
        corpus,
        vec![
            (2, strings(&["at"])),
            (3, strings(&["dog", "cat"])),
            (5, strings(&["horse", "mouse"])),
        ]
    );
}

#[test]
fn document_frequency_counts_words_not_occurrences() {
    let words = strings(&["CAT", "TAC", "DOG"]);
    let profile = document_frequency(&words);
    assert_eq!(profile.len(), 6);
    // counts are sorted descending
    for pair in profile.windows(2) {
        assert!(pair[0].1 >= pair[1].1);
    }
    let lookup = |c: char| profile.iter().find(|e| e.0 == c).map(|e| e.1);
    assert_eq!(lookup('A'), Some(2));
    assert_eq!(lookup('C'), Some(2));
    assert_eq!(lookup('T'), Some(2));
    assert_eq!(lookup('D'), Some(1));
    assert_eq!(lookup('O'), Some(1));
    assert_eq!(lookup('G'), Some(1));
    assert_eq!(lookup('X'), None);
    // a letter occurring twice in one word still counts that word once
    let twice = document_frequency(&strings(&["OTTO"]));
    let lookup2 = |c: char| twice.iter().find(|e| e.0 == c).map(|e| e.1);
    assert_eq!(lookup2('T'), Some(1));
    assert_eq!(lookup2('O'), Some(1));
}

#[test]
fn build_profiles_covers_every_bucket() {
    let corpus = vec![(3, strings(&["CAT", "TAC", "DOG"])), (2, strings(&["AT"]))];
    let profiles = build_profiles(&corpus);
    assert_eq!(profiles.len(), 2);
    assert_eq!(profiles[0].0, 3);
    assert_eq!(profiles[1].0, 2);
    let lookup = |c: char| profiles[1].1.iter().find(|e| e.0 == c).map(|e| e.1);
    assert_eq!(lookup('A'), Some(1));
    assert_eq!(lookup('T'), Some(1));
}

// Both rankings return the full tie set, in input order, not a single
// winner.
#[test]
fn rankings_return_full_tie_set() {
    let corpus = build_corpus(&strings(&["CAT", "TAC", "DOG"]));
    let profiles = build_profiles(&corpus);
    // overlap ranking: CAT and TAC each cover all of ACT, DOG none
    assert_eq!(most_letters(&corpus, 3, "ACT"), strings(&["CAT", "TAC"]));
    // presence-weighted ranking against the bucket profile: CAT and
    // TAC use the three most frequent letters, DOG the three rarest
    assert_eq!(
        most_common(&corpus, &profiles, 3),
        strings(&["CAT", "TAC"])
    );
}

#[test]
fn most_letters_normalizes_pattern_case() {
    let corpus = build_corpus(&strings(&["CAT", "DOG"]));
    assert_eq!(most_letters(&corpus, 3, "act"), strings(&["CAT"]));
}

#[test]
fn rankings_use_sentinel_for_missing_bucket() {
    let corpus = build_corpus(&strings(&["CAT"]));
    let profiles = build_profiles(&corpus);
    assert_eq!(most_letters(&corpus, 7, "ACT"), strings(&[""]));
    assert_eq!(most_common(&corpus, &profiles, 7), strings(&[""]));
}

#[test]
fn single_best_word_is_alone_in_its_tie_set() {
    let corpus = build_corpus(&strings(&["CAT", "CUT", "DOG"]));
    assert_eq!(most_letters(&corpus, 3, "CAT"), strings(&["CAT"]));
}
