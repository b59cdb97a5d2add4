//! Guess token parsing: a token is a non-empty sequence of
//! letter-digit pairs, the letter drawn from the corpus alphabet
//! (ASCII letters plus one diacritic, case-insensitive) and the digit
//! from 0, 1, 2 for absent, misplaced, correct.

use vstd::prelude::*;
use crate::clue::LetterAnswer;
use crate::clue::LetterAnswerType;
use crate::clue::WordAnswer;
use crate::errors::ClueError;

verus! {

/// The letter normalized to upper case: ASCII lower case shifts down
/// by 32 code points, the lower-case diacritic maps to its upper-case
/// form, everything else stays.
pub open spec fn upper_of(c: char) -> char {
    if ('a' as u32) <= (c as u32) && (c as u32) <= ('z' as u32) {
        (((c as u32) - 32) as u8) as char
    } else if c == '\u{e7}' {
        '\u{c7}'
    } else {
        c
    }
}

/// A character the token grammar accepts in letter position.
pub open spec fn is_token_letter(c: char) -> bool {
    ||| ('A' as u32) <= (c as u32) && (c as u32) <= ('Z' as u32)
    ||| ('a' as u32) <= (c as u32) && (c as u32) <= ('z' as u32)
    ||| c == '\u{e7}'
    ||| c == '\u{c7}'
}

/// A character the token grammar accepts in verdict position.
pub open spec fn is_verdict_digit(c: char) -> bool {
    c == '0' || c == '1' || c == '2'
}

/// The verdict a digit stands for.
pub open spec fn verdict_of(c: char) -> LetterAnswerType {
    if c == '0' {
        LetterAnswerType::NotInWord
    } else if c == '1' {
        LetterAnswerType::Incorrect
    } else {
        LetterAnswerType::Correct
    }
}

/// The token grammar: non-empty, even length, letters at even
/// positions and verdict digits at odd positions.
pub open spec fn token_valid(s: Seq<char>) -> bool {
    &&& s.len() > 0
    &&& s.len() % 2 == 0
    &&& forall|i: int| 0 <= i < s.len() && i % 2 == 0 ==> is_token_letter(#[trigger] s[i])
    &&& forall|i: int| 0 <= i < s.len() && i % 2 == 1 ==> is_verdict_digit(#[trigger] s[i])
}

/// What a valid token decodes to: one answer per letter-digit pair,
/// the letter normalized to upper case.
pub open spec fn decoded_token(s: Seq<char>) -> Seq<LetterAnswer> {
    Seq::new(
        s.len() / 2,
        |i: int| (LetterAnswer { letter: upper_of(s[2 * i]), answer: verdict_of(s[2 * i + 1]) }),
    )
}

/// Normalize one letter to upper case.
pub fn to_upper_letter(c: char) -> (r: char)
    ensures
        r == upper_of(c),
{
    let u = c as u32;
    if 97 <= u && u <= 122 {
        ((u - 32) as u8) as char
    } else if c == '\u{e7}' {
        '\u{c7}'
    } else {
        c
    }
}

/// Decode one guess token into a `WordAnswer`, or fail with
/// `InvalidToken` carrying the token when it does not fit the grammar.
#[verifier::loop_isolation(false)]
pub fn extract_answer(token: &str) -> (r: Result<WordAnswer, ClueError>)
    ensures
        match r {
            Ok(wa) => token_valid(token@) && wa@ == decoded_token(token@),
            Err(e) => match e {
                ClueError::InvalidToken(t) => !token_valid(token@) && t@ == token@,
                _ => false,
            },
        },
{
    let n = token.unicode_len();
    if n == 0 || n % 2 != 0 {
        return Err(ClueError::InvalidToken(String::from_str(token)));
    }
    let pairs = n / 2;
    let mut wa: Vec<LetterAnswer> = Vec::new();
    let mut p: usize = 0;
    while p < pairs
        invariant
            p <= pairs,
            wa@.len() == p,
            forall|i: int|
                0 <= i < p ==> #[trigger] wa@[i] == (LetterAnswer {
                    letter: upper_of(token@[2 * i]),
                    answer: verdict_of(token@[2 * i + 1]),
                }),
            forall|i: int| 0 <= i < 2 * p && i % 2 == 0 ==> is_token_letter(#[trigger] token@[i]),
            forall|i: int| 0 <= i < 2 * p && i % 2 == 1 ==> is_verdict_digit(#[trigger] token@[i]),
        decreases pairs - p,
    {
        let lc = token.get_char(2 * p);
        let dc = token.get_char(2 * p + 1);
        let lv = lc as u32;
        let letter_ok = (65 <= lv && lv <= 90) || (97 <= lv && lv <= 122) || lc == '\u{e7}' || lc
            == '\u{c7}';
        if !letter_ok {
            proof {
                assert(!is_token_letter(token@[2 * p]));
            }
            return Err(ClueError::InvalidToken(String::from_str(token)));
        }
        let answer = if dc == '0' {
            LetterAnswerType::NotInWord
        } else if dc == '1' {
            LetterAnswerType::Incorrect
        } else if dc == '2' {
            LetterAnswerType::Correct
        } else {
            proof {
                assert(!is_verdict_digit(token@[2 * p + 1]));
            }
            return Err(ClueError::InvalidToken(String::from_str(token)));
        };
        let lu = to_upper_letter(lc);
        wa.push(LetterAnswer { letter: lu, answer });
        p += 1;
    }
    proof {
        assert(2 * (pairs as int) == n);
        assert(wa@ =~= decoded_token(token@));
    }
    Ok(wa)
}

} // verus!
