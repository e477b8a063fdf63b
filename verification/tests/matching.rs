use wordle_solver::{Correctness, Guess, WordleError};

const C: Correctness = Correctness::Correct;
const M: Correctness = Correctness::Misplaced;
const A: Correctness = Correctness::Absent;

fn round(word: &str, mask: [Correctness; 5]) -> Guess {
    Guess { word: word.to_string(), mask }
}

/// All words of five letters over the given letters.
fn words_over(alphabet: &[char]) -> Vec<String> {
    let mut words = vec![String::new()];
    for _ in 0..5 {
        let mut longer = Vec::new();
        for word in &words {
            for letter in alphabet {
                let mut next = word.clone();
                next.push(*letter);
                longer.push(next);
            }
        }
        words = longer;
    }
    words
}

/// All masks there are.
fn all_masks() -> Vec<[Correctness; 5]> {
    let marks = [C, M, A];
    let mut masks = Vec::new();
    for a in marks {
        for b in marks {
            for c in marks {
                for d in marks {
                    for e in marks {
                        masks.push([a, b, c, d, e]);
                    }
                }
            }
        }
    }
    masks
}

#[test]
fn the_answer_matches_its_own_round() {
    let words = words_over(&['a', 'b', 'c']);
    assert_eq!(words.len(), 243);
    for answer in &words {
        for guess in &words {
            let mask = Correctness::compute(answer, guess);
            assert!(round(guess, mask).matches(answer), "{answer} against {guess}");
        }
    }
}

#[test]
fn matching_is_scoring_and_comparing() {
    let words = words_over(&['a', 'b']);
    assert_eq!(words.len(), 32);
    for guess in &words {
        for mask in all_masks() {
            let prior = round(guess, mask);
            for candidate in &words {
                assert_eq!(
                    prior.matches(candidate),
                    Correctness::compute(candidate, guess) == mask,
                    "{guess} {mask:?} {candidate}"
                );
            }
        }
    }
}

#[test]
fn matching_on_three_letters_is_scoring_and_comparing() {
    let words = words_over(&['a', 'b', 'c']);
    for guess in ["abcab", "aabbc", "ccccc", "abcba", "bacca"] {
        for mask in all_masks() {
            let prior = round(guess, mask);
            for candidate in &words {
                assert_eq!(
                    prior.matches(candidate),
                    Correctness::compute(candidate, guess) == mask,
                    "{guess} {mask:?} {candidate}"
                );
            }
        }
    }
}

#[test]
fn a_correct_mark_pins_the_letter() {
    let prior = round("right", [C, A, A, A, A]);
    assert!(prior.matches("round"));
    assert!(!prior.matches("mound"));
}

#[test]
fn an_exact_match_must_be_marked_correct() {
    // the candidate has `a` where the guess has it, so the mask would say `Correct`
    let prior = round("aaxyz", [M, M, A, A, A]);
    assert!(!prior.matches("qaars"));
    assert!(!prior.matches("aqqqa"));
    assert!(prior.matches("qqaaq"));
}

#[test]
fn a_misplaced_mark_needs_the_letter_elsewhere() {
    let prior = round("abcde", [M, A, A, A, A]);
    assert!(!prior.matches("vwxyz"));
    assert!(!prior.matches("axxxx"));
    assert!(prior.matches("xaxxx"));
    assert!(prior.matches("xxxxa"));
}

#[test]
fn an_absent_mark_allows_occurrences_that_are_claimed() {
    // the second `a` of the guess is absent although the candidate holds an `a`:
    // the first `a` of the guess has claimed it
    let prior = round("aaxyz", [M, A, A, A, A]);
    assert!(prior.matches("qqaqq"));
    assert!(!prior.matches("qqaaq"));
    assert!(!prior.matches("qqqqq"));
    // here the exact match claims the only `a`
    let prior = round("aaxyz", [A, C, A, A, A]);
    assert!(prior.matches("qaqqq"));
    assert!(!prior.matches("qaqqa"));
}

#[test]
fn all_correct_matches_the_word_alone() {
    let prior = round("moved", [C, C, C, C, C]);
    assert!(prior.matches("moved"));
    assert!(!prior.matches("loved"));
}

#[test]
fn all_absent_rules_out_every_letter() {
    let prior = round("right", [A, A, A, A, A]);
    assert!(prior.matches("moved"));
    assert!(!prior.matches("wrong"));
    assert!(!prior.matches("tacky"));
}

#[test]
fn the_checked_test_agrees_with_matching() {
    let prior = round("right", [C, A, A, A, A]);
    assert_eq!(prior.is_consistent("round"), Ok(true));
    assert_eq!(prior.is_consistent("mound"), Ok(false));
    assert_eq!(prior.is_consistent("fléau"), Ok(false));
}

#[test]
fn the_checked_test_rejects_other_lengths() {
    let prior = round("right", [C, A, A, A, A]);
    assert_eq!(prior.is_consistent("roun"), Err(WordleError::InvalidLength));
    assert_eq!(prior.is_consistent("rounds"), Err(WordleError::InvalidLength));
    assert_eq!(prior.is_consistent(""), Err(WordleError::InvalidLength));
    let prior = round("righ", [C, A, A, A, A]);
    assert_eq!(prior.is_consistent("round"), Err(WordleError::InvalidLength));
    let prior = round("rights", [C, A, A, A, A]);
    assert_eq!(prior.is_consistent("round"), Err(WordleError::InvalidLength));
}
