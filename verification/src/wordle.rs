//! The game itself: a dictionary, a hidden answer, and a strategy that has a bounded
//! number of rounds to find it.

use vstd::prelude::*;

use crate::correctness::{is_word, score, Correctness};
use crate::error::WordleError;
use crate::guess::{well_formed, Guess, Guesser};
use crate::pool::{has_word, loaded, Pool};

verus! {

/// The number of rounds after which a game is given up.
pub const MAX_ROUNDS: usize = 32;

/// What a guess leads to, given the dictionary and the answer: `Ok(true)` if it is the
/// answer, `Ok(false)` if it is another word of the dictionary and the game goes on.
///
/// A guess that hits the answer needs no further test. Any other must be a word of the
/// dictionary, and is then scored, for which both words must have five letters.
pub open spec fn verdict(
    dictionary: Seq<(Seq<char>, usize)>,
    answer: Seq<char>,
    guess: Seq<char>,
) -> Result<bool, WordleError> {
    if guess == answer {
        Ok(true)
    } else if !has_word(dictionary, guess) {
        Err(WordleError::OutOfDictionary)
    } else if !is_word(answer) || !is_word(guess) {
        Err(WordleError::InvalidLength)
    } else {
        Ok(false)
    }
}

/// How a game stands after the strategy has made the given proposals, one in each
/// round: `Ok(None)` while it is open, `Ok(Some(round))` once the answer was proposed
/// in that round, counted from 1, and the error on which it broke off otherwise.
///
/// A game breaks off when the strategy fails to propose a word, with the error of the
/// strategy, and when it proposes a word that [`verdict`] rejects. What is proposed
/// after the game has ended changes nothing.
pub open spec fn outcome_of(
    dictionary: Seq<(Seq<char>, usize)>,
    answer: Seq<char>,
    proposals: Seq<Result<Seq<char>, WordleError>>,
) -> Result<Option<usize>, WordleError>
    decreases proposals.len(),
{
    if proposals.len() == 0 {
        Ok(None)
    } else {
        match outcome_of(dictionary, answer, proposals.drop_last()) {
            Ok(None) => match proposals.last() {
                Ok(guess) => match verdict(dictionary, answer, guess) {
                    Ok(true) => Ok(Some(proposals.len() as usize)),
                    Ok(false) => Ok(None),
                    Err(e) => Err(e),
                },
                Err(e) => Err(e),
            },
            ended => ended,
        }
    }
}

/// What a strategy came back with, as mathematical values.
pub open spec fn proposal_view(next: Result<String, WordleError>) -> Result<
    Seq<char>,
    WordleError,
> {
    match next {
        Ok(guess) => Ok(guess@),
        Err(e) => Err(e),
    }
}

/// Whether a game that the given proposals were made in has ended with `outcome` on the
/// last of them: it was open before, and either the last proposal decided it or the
/// rounds are used up.
pub open spec fn ends_with(
    dictionary: Seq<(Seq<char>, usize)>,
    answer: Seq<char>,
    proposals: Seq<Result<Seq<char>, WordleError>>,
    outcome: Result<Option<usize>, WordleError>,
) -> bool {
    &&& 1 <= proposals.len() <= MAX_ROUNDS
    &&& outcome_of(dictionary, answer, proposals.drop_last()) == Ok::<_, WordleError>(
        None::<usize>,
    )
    &&& outcome_of(dictionary, answer, proposals) == outcome
    &&& outcome == Ok::<_, WordleError>(None::<usize>) ==> proposals.len() == MAX_ROUNDS
}

/// One more proposal in an open game: the verdict on it decides how the game stands.
proof fn lemma_next_round(
    dictionary: Seq<(Seq<char>, usize)>,
    answer: Seq<char>,
    before: Seq<Result<Seq<char>, WordleError>>,
    proposal: Result<Seq<char>, WordleError>,
)
    requires
        outcome_of(dictionary, answer, before) == Ok::<_, WordleError>(None::<usize>),
    ensures
        before.push(proposal).drop_last() == before,
        outcome_of(dictionary, answer, before.push(proposal)) == match proposal {
            Ok(guess) => match verdict(dictionary, answer, guess) {
                Ok(true) => Ok(Some((before.len() + 1) as usize)),
                Ok(false) => Ok(None),
                Err(e) => Err(e),
            },
            Err(e) => Err(e),
        },
{
    assert(before.push(proposal).drop_last() =~= before);
}

/// Whether `proposal` leaves a game open: it is a word of the dictionary other than the
/// answer, and the two can be scored.
pub open spec fn goes_on(
    dictionary: Seq<(Seq<char>, usize)>,
    answer: Seq<char>,
    proposal: Result<Seq<char>, WordleError>,
) -> bool {
    proposal matches Ok(guess) && verdict(dictionary, answer, guess) == Ok::<_, WordleError>(
        false,
    )
}

/// While a game is open, every proposal made so far has left it open.
pub proof fn lemma_open_game(
    dictionary: Seq<(Seq<char>, usize)>,
    answer: Seq<char>,
    proposals: Seq<Result<Seq<char>, WordleError>>,
    i: int,
)
    requires
        outcome_of(dictionary, answer, proposals) == Ok::<_, WordleError>(None::<usize>),
        0 <= i < proposals.len(),
    ensures
        goes_on(dictionary, answer, proposals[i]),
    decreases proposals.len(),
{
    if i < proposals.len() - 1 {
        lemma_open_game(dictionary, answer, proposals.drop_last(), i);
    }
}

/// A game that ends as solved ends with the answer, proposed in the round that is
/// reported, after proposals that all left it open.
pub proof fn lemma_solved_by_answer(
    dictionary: Seq<(Seq<char>, usize)>,
    answer: Seq<char>,
    proposals: Seq<Result<Seq<char>, WordleError>>,
    round: usize,
)
    requires
        ends_with(dictionary, answer, proposals, Ok(Some(round))),
    ensures
        proposals.len() == round,
        proposals.last() == Ok::<_, WordleError>(answer),
        forall|i: int| 0 <= i < round - 1 ==> goes_on(dictionary, answer, #[trigger] proposals[i]),
{
    assert forall|i: int| 0 <= i < round - 1 implies goes_on(
        dictionary,
        answer,
        #[trigger] proposals[i],
    ) by {
        lemma_open_game(dictionary, answer, proposals.drop_last(), i);
    }
}

/// A game that ends as not solved has seen as many proposals as there are rounds, and
/// all of them left it open.
pub proof fn lemma_unsolved_in_time(
    dictionary: Seq<(Seq<char>, usize)>,
    answer: Seq<char>,
    proposals: Seq<Result<Seq<char>, WordleError>>,
)
    requires
        ends_with(dictionary, answer, proposals, Ok(None)),
    ensures
        proposals.len() == MAX_ROUNDS,
        forall|i: int|
            0 <= i < MAX_ROUNDS ==> goes_on(dictionary, answer, #[trigger] proposals[i]),
{
    assert forall|i: int| 0 <= i < MAX_ROUNDS implies goes_on(
        dictionary,
        answer,
        #[trigger] proposals[i],
    ) by {
        lemma_open_game(dictionary, answer, proposals, i);
    }
}

/// A game master: knows the dictionary, scores guesses and counts rounds.
pub struct Wordle {
    dictionary: Pool,
}

impl View for Wordle {
    type V = Seq<(Seq<char>, usize)>;

    /// The entries of the dictionary.
    closed spec fn view(&self) -> Seq<(Seq<char>, usize)> {
        self.dictionary@
    }
}

impl Wordle {
    /// A game master for the dictionary that `dictionary` holds in its text form.
    pub fn new(dictionary: &str) -> (made: Result<Wordle, WordleError>)
        ensures
            match made {
                Ok(wordle) => loaded(dictionary@) == Ok::<_, WordleError>(wordle@),
                Err(e) => loaded(dictionary@) == Err::<Seq<(Seq<char>, usize)>, _>(e),
            },
    {
        match Pool::load(dictionary) {
            Ok(pool) => Ok(Wordle { dictionary: pool }),
            Err(e) => Err(e),
        }
    }

    /// Takes one guess: says whether it solves the game, and if not, files it in
    /// `history` with the mask it earns.
    ///
    /// A guess that is the answer solves the game, whatever the dictionary holds. Any
    /// other guess must be a word of the dictionary, or the game fails with
    /// [`WordleError::OutOfDictionary`], and must be scored against an answer of five
    /// letters, or the game fails with [`WordleError::InvalidLength`]. On failure the
    /// history stays as it was.
    pub fn judge(&self, answer: &str, guess: String, history: &mut Vec<Guess>) -> (solved: Result<
        bool,
        WordleError,
    >)
        requires
            well_formed(old(history)@),
        ensures
            solved == verdict(self@, answer@, guess@),
            well_formed(final(history)@),
            solved == Ok::<_, WordleError>(false) ==> {
                &&& final(history)@.len() == old(history)@.len() + 1
                &&& final(history)@.drop_last() == old(history)@
                &&& final(history)@.last().word == guess
                &&& final(history)@.last().mask@ == score(answer@, guess@)
            },
            solved != Ok::<_, WordleError>(false) ==> final(history)@ == old(history)@,
    {
        let target = answer.to_owned();
        if guess == target {
            return Ok(true);
        }
        if !self.dictionary.contains(guess.as_str()) {
            return Err(WordleError::OutOfDictionary);
        }
        match Correctness::score(answer, guess.as_str()) {
            Ok(mask) => {
                history.push(Guess { word: guess, mask });
                Ok(false)
            },
            Err(e) => Err(e),
        }
    }

    /// Plays one game: asks `guesser` for a word, round after round, until it proposes
    /// `answer` or `MAX_ROUNDS` rounds are over.
    ///
    /// Returns the round in which the answer was proposed, counted from 1, or `None` if
    /// it was not proposed in time. The game breaks off with the error of the strategy
    /// if it has no word to propose, and with the error that [`Wordle::judge`] names if
    /// it proposes one that cannot be scored.
    ///
    /// What the strategy proposes is its own affair. Whatever it is, the outcome is one
    /// that [`outcome_of`] gives for a series of proposals that fits the game: it stays
    /// open up to the last proposal, and ends on it (see [`ends_with`]).
    pub fn play<G: Guesser>(&self, answer: &str, guesser: G) -> (outcome: Result<
        Option<usize>,
        WordleError,
    >)
        ensures
            outcome matches Ok(Some(round)) ==> 1 <= round <= MAX_ROUNDS,
            exists|proposals: Seq<Result<Seq<char>, WordleError>>|
                ends_with(self@, answer@, proposals, outcome),
    {
        let mut guesser = guesser;
        let mut history: Vec<Guess> = Vec::new();
        let ghost mut proposals: Seq<Result<Seq<char>, WordleError>> = Seq::empty();
        for round in 1..MAX_ROUNDS + 1
            invariant
                well_formed(history@),
                proposals.len() == round - 1,
                outcome_of(self@, answer@, proposals) == Ok::<_, WordleError>(None::<usize>),
                round > MAX_ROUNDS ==> ends_with(
                    self@,
                    answer@,
                    proposals,
                    Ok::<_, WordleError>(None::<usize>),
                ),
        {
            let ghost before = proposals;
            let next = guesser.guess(history.as_slice());
            proof {
                proposals = before.push(proposal_view(next));
                lemma_next_round(self@, answer@, before, proposals.last());
            }
            let guess = match next {
                Ok(guess) => guess,
                Err(e) => {
                    assert(ends_with(self@, answer@, proposals, Err::<Option<usize>, _>(e)));
                    return Err(e);
                },
            };
            match self.judge(answer, guess, &mut history) {
                Ok(true) => {
                    assert(ends_with(
                        self@,
                        answer@,
                        proposals,
                        Ok::<_, WordleError>(Some(round)),
                    ));
                    return Ok(Some(round));
                },
                Ok(false) => {},
                Err(e) => {
                    assert(ends_with(self@, answer@, proposals, Err::<Option<usize>, _>(e)));
                    return Err(e);
                },
            }
        }
        Ok(None)
    }
}

} // verus!
