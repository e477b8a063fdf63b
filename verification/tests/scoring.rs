use wordle_solver::correctness::letters;
use wordle_solver::{Correctness, WordleError};

const C: Correctness = Correctness::Correct;
const M: Correctness = Correctness::Misplaced;
const A: Correctness = Correctness::Absent;

#[test]
fn all_correct() {
    assert_eq!(Correctness::compute("abcde", "abcde"), [C, C, C, C, C],);
}

#[test]
fn all_misplaced() {
    assert_eq!(Correctness::compute("abcde", "badec"), [M, M, M, M, M],);
}

#[test]
fn all_wrong() {
    assert_eq!(Correctness::compute("abcde", "fffff"), [A, A, A, A, A],);
}

#[test]
fn repeat_correct() {
    assert_eq!(Correctness::compute("aabbb", "aaccc"), [C, C, A, A, A],);
}

#[test]
fn repeat_misplaced() {
    assert_eq!(Correctness::compute("aabbb", "bbcca"), [M, M, A, A, M],);
}

#[test]
fn mix_correct() {
    assert_eq!(Correctness::compute("abcde", "abfed"), [C, C, A, M, M],);
}

#[test]
fn repeated_after_misplace() {
    assert_eq!(Correctness::compute("abbab", "aaacc"), [C, M, A, A, A],);
}

#[test]
fn mix_abscent() {
    assert_eq!(Correctness::compute("baccc", "aaddd"), [A, C, A, A, A],);
}

#[test]
fn every_word_matches_itself() {
    for word in ["moved", "right", "wrong", "aaaaa", "abcab", "zzzza"] {
        assert_eq!(Correctness::compute(word, word), [C, C, C, C, C]);
    }
}

#[test]
fn words_without_common_letters_are_all_absent() {
    assert_eq!(Correctness::compute("moved", "right"), [A, A, A, A, A]);
    assert_eq!(Correctness::compute("aabbc", "ddeef"), [A, A, A, A, A]);
    assert_eq!(Correctness::compute("aaaaa", "bbbbb"), [A, A, A, A, A]);
}

#[test]
fn surplus_letters_of_the_guess_are_absent() {
    // one `e` in the answer: the exact match takes it, the other two find nothing
    assert_eq!(Correctness::compute("abide", "eerie"), [A, A, A, M, C]);
    // two `l` in the answer, three in the guess: the first is exact, the next one
    // finds the other, the last finds nothing
    assert_eq!(Correctness::compute("llama", "lxlxl"), [C, A, M, A, A]);
}

#[test]
fn exact_matches_are_resolved_before_misplaced_ones() {
    // the only `a` of the answer is matched exactly by the second `a` of the guess
    assert_eq!(Correctness::compute("xaxxx", "aaxxx"), [A, C, C, C, C]);
    assert_eq!(Correctness::compute("xxxxa", "axxxa"), [A, C, C, C, C]);
}

#[test]
fn letters_other_than_ascii_count_as_one_each() {
    assert_eq!(Correctness::compute("fléau", "élfes"), [M, C, M, A, A]);
}

#[test]
fn letters_are_taken_in_order() {
    assert_eq!(letters("moved"), ['m', 'o', 'v', 'e', 'd']);
    assert_eq!(letters("naïve"), ['n', 'a', 'ï', 'v', 'e']);
}

#[test]
fn score_of_two_words_is_their_mask() {
    assert_eq!(Correctness::score("aabbb", "bbcca"), Ok([M, M, A, A, M]));
    assert_eq!(Correctness::score("right", "wrong"), Ok([A, M, A, A, M]));
}

#[test]
fn score_rejects_other_lengths() {
    assert_eq!(Correctness::score("abcd", "abcde"), Err(WordleError::InvalidLength));
    assert_eq!(Correctness::score("abcde", "abcdef"), Err(WordleError::InvalidLength));
    assert_eq!(Correctness::score("", ""), Err(WordleError::InvalidLength));
    // five bytes, four letters
    assert_eq!(Correctness::score("abcde", "aébc"), Err(WordleError::InvalidLength));
}

/// All words of five letters over `a`, `b` and `c`.
fn small_words() -> Vec<String> {
    let mut words = vec![String::new()];
    for _ in 0..5 {
        let mut longer = Vec::new();
        for word in &words {
            for letter in ['a', 'b', 'c'] {
                let mut next = word.clone();
                next.push(letter);
                longer.push(next);
            }
        }
        words = longer;
    }
    words
}

#[test]
fn each_letter_of_the_answer_serves_one_letter_of_the_guess() {
    let words = small_words();
    for answer in &words {
        for guess in &words {
            let mask = Correctness::compute(answer, guess);
            for letter in ['a', 'b', 'c'] {
                let in_answer = answer.chars().filter(|c| *c == letter).count();
                let in_guess = guess.chars().filter(|c| *c == letter).count();
                let credited = guess
                    .chars()
                    .zip(mask)
                    .filter(|(c, mark)| *c == letter && *mark != A)
                    .count();
                assert_eq!(credited, in_answer.min(in_guess), "{answer} {guess} {letter}");
            }
        }
    }
}

#[test]
fn a_mark_is_correct_where_the_letters_agree_and_nowhere_else() {
    let words = small_words();
    for answer in &words {
        for guess in &words {
            let mask = Correctness::compute(answer, guess);
            for (i, (a, g)) in answer.chars().zip(guess.chars()).enumerate() {
                assert_eq!(mask[i] == C, a == g, "{answer} {guess} {i}");
            }
        }
    }
}
