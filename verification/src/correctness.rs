//! Per-letter feedback and the rule that assigns it.

use vstd::prelude::*;

use crate::error::WordleError;

verus! {

/// Number of letters in every word of the game.
pub const WORD_LEN: usize = 5;

/// Feedback for one letter of a guess.
#[derive(Debug, Clone, Copy, PartialEq, Eq, Structural)]
pub enum Correctness {
    /// The letter stands at this position in the answer.
    Correct,
    /// The letter occurs in the answer, at another position that no other letter of the
    /// guess has claimed.
    Misplaced,
    /// Every occurrence of the letter in the answer is claimed by other letters of the guess.
    Absent,
}

/// A word is a sequence of exactly five letters.
pub open spec fn is_word(w: Seq<char>) -> bool {
    w.len() == WORD_LEN
}

/// How many of the first `n` positions hold the letter `c` in `a` and another letter in `b`.
///
/// With `a` the answer and `b` the guess this counts the occurrences of `c` in the answer
/// that no exact match uses up; with the roles exchanged it counts the occurrences of `c`
/// in the guess that still look for a partner.
pub open spec fn unmatched(a: Seq<char>, b: Seq<char>, c: char, n: int) -> nat
    decreases n,
{
    if n <= 0 {
        0
    } else {
        let here: nat = if a[n - 1] == c && b[n - 1] != c {
            1
        } else {
            0
        };
        unmatched(a, b, c, n - 1) + here
    }
}

/// The feedback for the letter at position `i` of `guess`.
///
/// An exact match is `Correct`. Any other letter is `Misplaced` as long as the answer has
/// more unmatched occurrences of it than the guess has to the left of `i`, and `Absent`
/// from then on: every occurrence in the answer serves one letter of the guess, exact
/// matches first, the others from left to right.
pub open spec fn score_at(answer: Seq<char>, guess: Seq<char>, i: int) -> Correctness {
    if answer[i] == guess[i] {
        Correctness::Correct
    } else if unmatched(guess, answer, guess[i], i) < unmatched(
        answer,
        guess,
        guess[i],
        answer.len() as int,
    ) {
        Correctness::Misplaced
    } else {
        Correctness::Absent
    }
}

/// The mask that `guess` earns against `answer`, one entry for each letter of the guess.
pub open spec fn score(answer: Seq<char>, guess: Seq<char>) -> Seq<Correctness> {
    Seq::new(guess.len(), |i: int| score_at(answer, guess, i))
}

/// How many of the first `n` positions of `word` hold the letter `c`.
pub open spec fn occurrences(word: Seq<char>, c: char, n: int) -> nat
    decreases n,
{
    if n <= 0 {
        0
    } else {
        let here: nat = if word[n - 1] == c {
            1
        } else {
            0
        };
        occurrences(word, c, n - 1) + here
    }
}

/// How many of the first `n` letters of `guess` are the letter `c` and earn a mark other
/// than `Absent`.
pub open spec fn credited(answer: Seq<char>, guess: Seq<char>, c: char, n: int) -> nat
    decreases n,
{
    if n <= 0 {
        0
    } else {
        let here: nat = if guess[n - 1] == c && score_at(answer, guess, n - 1)
            != Correctness::Absent {
            1
        } else {
            0
        };
        credited(answer, guess, c, n - 1) + here
    }
}

/// How many of the first `n` positions of the answer `a` are consumed, hold `c`, and are
/// no exact match with the guess `b`.
pub(crate) closed spec fn claimed(
    a: Seq<char>,
    b: Seq<char>,
    used: Seq<bool>,
    c: char,
    n: int,
) -> nat
    decreases n,
{
    if n <= 0 {
        0
    } else {
        let here: nat = if used[n - 1] && a[n - 1] == c && b[n - 1] != c {
            1
        } else {
            0
        };
        claimed(a, b, used, c, n - 1) + here
    }
}

/// The state of the bookkeeping once the first `i` letters of the guess are resolved:
/// every exact match is consumed, and of each letter as many further occurrences as the
/// guess has asked for so far, up to the number there are.
pub(crate) closed spec fn resolved_through(
    answer: Seq<char>,
    guess: Seq<char>,
    used: Seq<bool>,
    i: int,
) -> bool {
    &&& used.len() == answer.len()
    &&& forall|k: int| 0 <= k < answer.len() && answer[k] == guess[k] ==> used[k]
    &&& forall|c: char|
        {
            let have = unmatched(answer, guess, c, answer.len() as int);
            let asked = unmatched(guess, answer, c, i);
            #[trigger] claimed(answer, guess, used, c, answer.len() as int) == if asked < have {
                asked
            } else {
                have
            }
        }
}

proof fn lemma_claimed_none(a: Seq<char>, b: Seq<char>, used: Seq<bool>, c: char, n: int)
    requires
        n <= used.len(),
        forall|k: int| 0 <= k < n && used[k] ==> a[k] == b[k],
    ensures
        claimed(a, b, used, c, n) == 0,
    decreases n,
{
    if n > 0 {
        lemma_claimed_none(a, b, used, c, n - 1);
    }
}

proof fn lemma_claimed_all(a: Seq<char>, b: Seq<char>, used: Seq<bool>, c: char, n: int)
    requires
        n <= used.len(),
        forall|k: int| 0 <= k < n && a[k] == c && b[k] != c ==> used[k],
    ensures
        claimed(a, b, used, c, n) == unmatched(a, b, c, n),
    decreases n,
{
    if n > 0 {
        lemma_claimed_all(a, b, used, c, n - 1);
    }
}

proof fn lemma_claimed_short(
    a: Seq<char>,
    b: Seq<char>,
    used: Seq<bool>,
    c: char,
    n: int,
    k: int,
)
    requires
        n <= used.len(),
    ensures
        claimed(a, b, used, c, n) <= unmatched(a, b, c, n),
        0 <= k < n && !used[k] && a[k] == c && b[k] != c ==> claimed(a, b, used, c, n) < unmatched(
            a,
            b,
            c,
            n,
        ),
    decreases n,
{
    if n > 0 {
        lemma_claimed_short(a, b, used, c, n - 1, k);
    }
}

proof fn lemma_claimed_update(
    a: Seq<char>,
    b: Seq<char>,
    used: Seq<bool>,
    c: char,
    n: int,
    k: int,
)
    requires
        n <= used.len(),
        0 <= k < used.len(),
        !used[k],
    ensures
        claimed(a, b, used.update(k, true), c, n) == claimed(a, b, used, c, n) + if k < n && a[k]
            == c && b[k] != c {
            1nat
        } else {
            0nat
        },
    decreases n,
{
    if n > 0 {
        lemma_claimed_update(a, b, used, c, n - 1, k);
    }
}

/// Once the exact matches are consumed and nothing else is, no letter of the guess has
/// been resolved.
proof fn lemma_resolved_start(answer: Seq<char>, guess: Seq<char>, used: Seq<bool>)
    requires
        used.len() == answer.len(),
        forall|k: int| 0 <= k < answer.len() ==> used[k] == (answer[k] == guess[k]),
    ensures
        resolved_through(answer, guess, used, 0),
{
    assert forall|c: char| #[trigger]
        claimed(answer, guess, used, c, answer.len() as int) == 0 by {
        lemma_claimed_none(answer, guess, used, c, answer.len() as int);
    }
}

/// An exact match at position `i` of the guess asks for nothing.
pub(crate) proof fn lemma_resolved_exact(
    answer: Seq<char>,
    guess: Seq<char>,
    used: Seq<bool>,
    i: int,
)
    requires
        0 <= i,
        resolved_through(answer, guess, used, i),
        answer[i] == guess[i],
    ensures
        resolved_through(answer, guess, used, i + 1),
{
    assert forall|c: char|
        unmatched(guess, answer, c, i + 1) == unmatched(guess, answer, c, i) by {}
}

/// The letter at position `i` of the guess finds an unconsumed occurrence at position `k`
/// of the answer: it is `Misplaced`, and consuming `k` resolves it.
pub(crate) proof fn lemma_resolved_found(
    answer: Seq<char>,
    guess: Seq<char>,
    used: Seq<bool>,
    i: int,
    k: int,
)
    requires
        0 <= i,
        resolved_through(answer, guess, used, i),
        answer[i] != guess[i],
        0 <= k < answer.len(),
        !used[k],
        answer[k] == guess[i],
    ensures
        score_at(answer, guess, i) == Correctness::Misplaced,
        resolved_through(answer, guess, used.update(k, true), i + 1),
{
    let n = answer.len() as int;
    let letter = guess[i];
    lemma_claimed_short(answer, guess, used, letter, n, k);
    assert forall|c: char|
        {
            let have = unmatched(answer, guess, c, n);
            let asked = unmatched(guess, answer, c, i + 1);
            #[trigger] claimed(answer, guess, used.update(k, true), c, n) == if asked < have {
                asked
            } else {
                have
            }
        } by {
        lemma_claimed_update(answer, guess, used, c, n, k);
    }
}

/// The letter at position `i` of the guess finds every occurrence in the answer consumed:
/// it is `Absent`, and the bookkeeping stays as it is.
pub(crate) proof fn lemma_resolved_missing(
    answer: Seq<char>,
    guess: Seq<char>,
    used: Seq<bool>,
    i: int,
)
    requires
        0 <= i,
        resolved_through(answer, guess, used, i),
        answer[i] != guess[i],
        forall|k: int| 0 <= k < answer.len() && answer[k] == guess[i] ==> used[k],
    ensures
        score_at(answer, guess, i) == Correctness::Absent,
        resolved_through(answer, guess, used, i + 1),
{
    let n = answer.len() as int;
    lemma_claimed_all(answer, guess, used, guess[i], n);
    assert forall|c: char|
        unmatched(guess, answer, c, i + 1) == unmatched(guess, answer, c, i) + if c == guess[i] {
            1nat
        } else {
            0nat
        } by {}
}

/// A letter that does not occur among the first `n` positions of `a` is counted nowhere.
proof fn lemma_unmatched_none(a: Seq<char>, b: Seq<char>, c: char, n: int)
    requires
        forall|k: int| 0 <= k < n ==> a[k] != c,
    ensures
        unmatched(a, b, c, n) == 0,
    decreases n,
{
    if n > 0 {
        lemma_unmatched_none(a, b, c, n - 1);
    }
}

/// Self-match: a word scored against itself is `Correct` at every position.
pub proof fn lemma_self_match(word: Seq<char>)
    ensures
        score(word, word).len() == word.len(),
        forall|i: int| 0 <= i < word.len() ==> score(word, word)[i] == Correctness::Correct,
{
}

/// Disjointness: a guess that shares no letter with the answer is `Absent` at every
/// position.
pub proof fn lemma_disjoint_absent(answer: Seq<char>, guess: Seq<char>)
    requires
        answer.len() == guess.len(),
        forall|i: int, j: int|
            0 <= i < answer.len() && 0 <= j < guess.len() ==> answer[i] != guess[j],
    ensures
        score(answer, guess).len() == guess.len(),
        forall|i: int| 0 <= i < guess.len() ==> score(answer, guess)[i] == Correctness::Absent,
{
    assert forall|i: int| 0 <= i < guess.len() implies score(answer, guess)[i]
        == Correctness::Absent by {
        lemma_unmatched_none(answer, guess, guess[i], answer.len() as int);
    }
}

/// Among the first `n` positions, the exact matches of `c` are the occurrences in either
/// word that are not unmatched, and every unmatched `c` of the guess earns credit as
/// long as the answer has unmatched ones to go round.
proof fn lemma_credited_through(answer: Seq<char>, guess: Seq<char>, c: char, n: int)
    requires
        answer.len() == guess.len(),
        0 <= n <= guess.len(),
    ensures
        occurrences(answer, c, n) - unmatched(answer, guess, c, n) == occurrences(guess, c, n)
            - unmatched(guess, answer, c, n),
        credited(answer, guess, c, n) == occurrences(guess, c, n) - unmatched(
            guess,
            answer,
            c,
            n,
        ) + if unmatched(guess, answer, c, n) < unmatched(answer, guess, c, answer.len() as int) {
            unmatched(guess, answer, c, n)
        } else {
            unmatched(answer, guess, c, answer.len() as int)
        },
    decreases n,
{
    if n > 0 {
        lemma_credited_through(answer, guess, c, n - 1);
    }
}

/// Multiplicity: every occurrence of a letter in the answer serves one letter of the
/// guess, so of the letters `c` in the guess as many earn a mark other than `Absent` as
/// the answer has letters `c` to go round, and the surplus is `Absent`.
pub proof fn lemma_multiplicity(answer: Seq<char>, guess: Seq<char>, c: char)
    requires
        answer.len() == guess.len(),
    ensures
        credited(answer, guess, c, guess.len() as int) == if occurrences(
            answer,
            c,
            answer.len() as int,
        ) < occurrences(guess, c, guess.len() as int) {
            occurrences(answer, c, answer.len() as int)
        } else {
            occurrences(guess, c, guess.len() as int)
        },
{
    lemma_credited_through(answer, guess, c, guess.len() as int);
}

/// The letters of a word, one by one.
pub fn letters(word: &str) -> (out: [char; 5])
    requires
        is_word(word@),
    ensures
        out@ == word@,
{
    let mut out: [char; 5] = ['a'; 5];
    for i in 0..5usize
        invariant
            is_word(word@),
            forall|k: int| 0 <= k < i ==> out@[k] == word@[k],
    {
        out[i] = word.get_char(i);
    }
    out
}

/// Marks the exact matches between `answer` and `guess` as consumed.
pub(crate) fn exact_matches(answer: &[char; 5], guess: &[char; 5]) -> (used: [bool; 5])
    ensures
        forall|k: int| 0 <= k < 5 ==> used@[k] == (answer@[k] == guess@[k]),
        resolved_through(answer@, guess@, used@, 0),
{
    let mut used: [bool; 5] = [false; 5];
    for i in 0..5usize
        invariant
            forall|k: int| 0 <= k < i ==> used@[k] == (answer@[k] == guess@[k]),
    {
        used[i] = answer[i] == guess[i];
    }
    proof {
        lemma_resolved_start(answer@, guess@, used@);
    }
    used
}

/// Searches the unconsumed positions of `answer` for `letter`, from the left, and
/// consumes the first one that holds it.
pub(crate) fn claim(answer: &[char; 5], used: &mut [bool; 5], letter: char) -> (at: Option<usize>)
    ensures
        match at {
            Some(k) => {
                &&& k < 5
                &&& !old(used)@[k as int]
                &&& answer@[k as int] == letter
                &&& final(used)@ == old(used)@.update(k as int, true)
            },
            None => {
                &&& final(used)@ == old(used)@
                &&& forall|k: int| 0 <= k < 5 && answer@[k] == letter ==> old(used)@[k]
            },
        },
{
    for k in 0..5usize
        invariant
            used@ == old(used)@,
            forall|j: int| 0 <= j < k && answer@[j] == letter ==> used@[j],
    {
        if !used[k] && answer[k] == letter {
            used[k] = true;
            return Some(k);
        }
    }
    None
}

impl Correctness {
    /// Scores `guess` against `answer`, provided both are words of five letters.
    pub fn score(answer: &str, guess: &str) -> (scored: Result<[Correctness; 5], WordleError>)
        ensures
            match scored {
                Ok(mask) => is_word(answer@) && is_word(guess@) && mask@ == score(
                    answer@,
                    guess@,
                ),
                Err(e) => e == WordleError::InvalidLength && !(is_word(answer@) && is_word(
                    guess@,
                )),
            },
    {
        if answer.unicode_len() == WORD_LEN && guess.unicode_len() == WORD_LEN {
            Ok(Correctness::compute(answer, guess))
        } else {
            Err(WordleError::InvalidLength)
        }
    }

    /// Scores `guess` against `answer`: exact matches first, then every other letter of
    /// the guess, from the left, against the occurrences that are still unconsumed.
    pub fn compute(answer: &str, guess: &str) -> (mask: [Correctness; 5])
        requires
            is_word(answer@),
            is_word(guess@),
        ensures
            mask@ == score(answer@, guess@),
    {
        let answer = letters(answer);
        let guess = letters(guess);
        let mut used = exact_matches(&answer, &guess);
        let mut mask = [Correctness::Absent; 5];
        for i in 0..5usize
            invariant
                resolved_through(answer@, guess@, used@, i as int),
                forall|j: int| 0 <= j < i ==> mask@[j] == score_at(answer@, guess@, j),
        {
            if answer[i] == guess[i] {
                mask[i] = Correctness::Correct;
                proof {
                    lemma_resolved_exact(answer@, guess@, used@, i as int);
                }
            } else {
                let ghost before = used@;
                match claim(&answer, &mut used, guess[i]) {
                    Some(k) => {
                        mask[i] = Correctness::Misplaced;
                        proof {
                            lemma_resolved_found(answer@, guess@, before, i as int, k as int);
                        }
                    },
                    None => {
                        mask[i] = Correctness::Absent;
                        proof {
                            lemma_resolved_missing(answer@, guess@, before, i as int);
                        }
                    },
                }
            }
        }
        mask
    }
}

} // verus!
