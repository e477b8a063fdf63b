//! One round of a game as a strategy sees it: the word that was proposed, the feedback it
//! earned, and the test whether a candidate could still be the answer.

use vstd::prelude::*;

use crate::correctness::{
    claim, exact_matches, is_word, lemma_resolved_exact, lemma_resolved_found,
    lemma_resolved_missing, letters, resolved_through, score, score_at, Correctness, WORD_LEN,
};
use crate::error::WordleError;

verus! {

/// A proposed word together with the mask it earned. The mask means nothing without the
/// word, so the two travel together.
pub struct Guess {
    pub word: String,
    pub mask: [Correctness; 5],
}

/// What a [`Guess`] holds, as mathematical values.
pub struct GuessView {
    pub word: Seq<char>,
    pub mask: Seq<Correctness>,
}

impl View for Guess {
    type V = GuessView;

    open spec fn view(&self) -> GuessView {
        GuessView { word: self.word@, mask: self.mask@ }
    }
}

/// A candidate is consistent with an earlier round if, were it the answer, the word
/// guessed in that round would have earned the very mask that was observed.
pub open spec fn consistent(prior: GuessView, candidate: Seq<char>) -> bool {
    score(candidate, prior.word) == prior.mask
}

/// Reflexivity: whatever was guessed, the answer is consistent with the round that was
/// scored against it.
pub proof fn lemma_answer_consistent(answer: Seq<char>, guess: Seq<char>)
    ensures
        consistent(GuessView { word: guess, mask: score(answer, guess) }, answer),
{
}

impl Guess {
    /// The guessed word has five letters, as its mask has five entries.
    pub open spec fn wf(&self) -> bool {
        is_word(self.word@)
    }

    /// Whether `candidate` could still be the answer after this round, provided that the
    /// guessed word and the candidate are words of five letters.
    pub fn is_consistent(&self, candidate: &str) -> (checked: Result<bool, WordleError>)
        ensures
            match checked {
                Ok(ok) => self.wf() && is_word(candidate@) && ok == consistent(self@, candidate@),
                Err(e) => e == WordleError::InvalidLength && !(self.wf() && is_word(candidate@)),
            },
    {
        if self.word.as_str().unicode_len() == WORD_LEN && candidate.unicode_len() == WORD_LEN {
            Ok(self.matches(candidate))
        } else {
            Err(WordleError::InvalidLength)
        }
    }

    /// Whether `word` could still be the answer after this round.
    ///
    /// The exact matches must be the positions marked `Correct`, neither more nor fewer.
    /// Every other letter of the guess then looks, from the left, for an occurrence in
    /// `word` that no earlier letter has claimed: it must find one where the mask says
    /// `Misplaced`, and none where the mask says `Absent`.
    pub fn matches(&self, word: &str) -> (ok: bool)
        requires
            self.wf(),
            is_word(word@),
        ensures
            ok == consistent(self@, word@),
    {
        let guess = letters(self.word.as_str());
        let answer = letters(word);
        for i in 0..5usize
            invariant
                answer@ == word@,
                guess@ == self.word@,
                forall|j: int|
                    0 <= j < i ==> (self.mask@[j] == Correctness::Correct) == (answer@[j]
                        == guess@[j]),
        {
            if (self.mask[i] == Correctness::Correct) != (answer[i] == guess[i]) {
                return false;
            }
        }
        let mut used = exact_matches(&answer, &guess);
        for i in 0..5usize
            invariant
                answer@ == word@,
                guess@ == self.word@,
                resolved_through(answer@, guess@, used@, i as int),
                forall|j: int|
                    0 <= j < 5 ==> (self.mask@[j] == Correctness::Correct) == (answer@[j]
                        == guess@[j]),
                forall|j: int| 0 <= j < i ==> self.mask@[j] == score_at(answer@, guess@, j),
        {
            if answer[i] == guess[i] {
                proof {
                    lemma_resolved_exact(answer@, guess@, used@, i as int);
                }
            } else {
                let ghost before = used@;
                let expected = match claim(&answer, &mut used, guess[i]) {
                    Some(k) => {
                        proof {
                            lemma_resolved_found(answer@, guess@, before, i as int, k as int);
                        }
                        Correctness::Misplaced
                    },
                    None => {
                        proof {
                            lemma_resolved_missing(answer@, guess@, before, i as int);
                        }
                        Correctness::Absent
                    },
                };
                if self.mask[i] != expected {
                    return false;
                }
            }
        }
        assert(score(answer@, guess@) =~= self.mask@);
        true
    }
}

/// Whether every round of `history` holds a five-letter word.
pub open spec fn well_formed(history: Seq<Guess>) -> bool {
    forall|i: int| 0 <= i < history.len() ==> (#[trigger] history[i]).wf()
}

/// A strategy: something that proposes the next word to try.
pub trait Guesser {
    /// Proposes the word for the coming round.
    ///
    /// `history` holds the rounds played so far, the first round first, and is empty
    /// before the first round; each of its rounds holds a word of five letters. A
    /// strategy that keeps candidates of its own brings them up to date here. One that
    /// has no word left to propose fails with [`WordleError::Exhausted`].
    fn guess(&mut self, history: &[Guess]) -> (next: Result<String, WordleError>)
        requires
            well_formed(history@),
    ;
}

} // verus!
