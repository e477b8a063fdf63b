//! The words that may still be the answer, each with its frequency weight.

use vstd::prelude::*;

use crate::correctness::{is_word, score, WORD_LEN};
use crate::dictionary::{entries_of, entries_view, parse};
use crate::error::WordleError;
use crate::guess::{consistent, lemma_answer_consistent, Guess, GuessView};

verus! {

/// Whether some entry of `pool` holds `word`.
pub open spec fn has_word(pool: Seq<(Seq<char>, usize)>, word: Seq<char>) -> bool {
    exists|i: int| 0 <= i < pool.len() && (#[trigger] pool[i]).0 == word
}

/// Every entry holds a five-letter word.
pub open spec fn all_words(pool: Seq<(Seq<char>, usize)>) -> bool {
    forall|i: int| 0 <= i < pool.len() ==> is_word((#[trigger] pool[i]).0)
}

/// No word stands in two entries.
pub open spec fn distinct_words(pool: Seq<(Seq<char>, usize)>) -> bool {
    forall|i: int, j: int|
        0 <= i < pool.len() && 0 <= j < pool.len() && i != j ==> (#[trigger] pool[i]).0 != (
        #[trigger] pool[j]).0
}

/// A pool maps five-letter words to weights: every entry holds a word, and no word
/// stands in two entries.
pub open spec fn is_pool(pool: Seq<(Seq<char>, usize)>) -> bool {
    all_words(pool) && distinct_words(pool)
}

/// `pool` with `word` mapped to `weight`: a word that the pool knows keeps its place and
/// takes the new weight, any other word joins at the end.
pub open spec fn upsert(pool: Seq<(Seq<char>, usize)>, word: Seq<char>, weight: usize) -> Seq<
    (Seq<char>, usize),
> {
    if has_word(pool, word) {
        pool.map_values(
            |e: (Seq<char>, usize)|
                if e.0 == word {
                    (e.0, weight)
                } else {
                    e
                },
        )
    } else {
        pool.push((word, weight))
    }
}

/// The mapping that a list of dictionary entries describes: entries are taken in order,
/// so that of two entries for one word the later one decides the weight.
pub open spec fn collected(entries: Seq<(Seq<char>, usize)>) -> Seq<(Seq<char>, usize)>
    decreases entries.len(),
{
    if entries.len() == 0 {
        Seq::empty()
    } else {
        upsert(collected(entries.drop_last()), entries.last().0, entries.last().1)
    }
}

/// What loading `text` as a dictionary gives: the mapping that its entries describe,
/// unless a line is malformed or a word does not have five letters.
pub open spec fn loaded(text: Seq<char>) -> Result<Seq<(Seq<char>, usize)>, WordleError> {
    match entries_of(text) {
        None => Err(WordleError::MalformedDictionaryEntry),
        Some(entries) => if all_words(entries) {
            Ok(collected(entries))
        } else {
            Err(WordleError::InvalidLength)
        },
    }
}

/// What is left of `pool` once `prior` is known: the entries whose words are consistent
/// with it, in the order they had.
pub open spec fn pruned(pool: Seq<(Seq<char>, usize)>, prior: GuessView) -> Seq<
    (Seq<char>, usize),
> {
    pool.filter(|e: (Seq<char>, usize)| consistent(prior, e.0))
}

/// What is left of `pool` once every round of `history` is known.
pub open spec fn pruned_by_all(pool: Seq<(Seq<char>, usize)>, history: Seq<GuessView>) -> Seq<
    (Seq<char>, usize),
>
    decreases history.len(),
{
    if history.len() == 0 {
        pool
    } else {
        pruned(pruned_by_all(pool, history.drop_last()), history.last())
    }
}

/// Mapping a five-letter word keeps a pool a pool.
proof fn lemma_upsert_is_pool(pool: Seq<(Seq<char>, usize)>, word: Seq<char>, weight: usize)
    requires
        is_pool(pool),
        is_word(word),
    ensures
        is_pool(upsert(pool, word, weight)),
{
}

/// Mapping a word adds that word to the words of a pool, and no other.
proof fn lemma_upsert_members(
    pool: Seq<(Seq<char>, usize)>,
    word: Seq<char>,
    weight: usize,
    other: Seq<char>,
)
    ensures
        has_word(upsert(pool, word, weight), other) <==> has_word(pool, other) || other == word,
{
    let next = upsert(pool, word, weight);
    if has_word(pool, other) {
        let i = choose|i: int| 0 <= i < pool.len() && (#[trigger] pool[i]).0 == other;
        assert(next[i].0 == other);
    }
    if other == word && !has_word(pool, word) {
        assert(next[pool.len() as int].0 == word);
    }
}

/// The words of the collected mapping are the words that the entries name.
pub proof fn lemma_collected_members(entries: Seq<(Seq<char>, usize)>, word: Seq<char>)
    ensures
        has_word(collected(entries), word) <==> has_word(entries, word),
    decreases entries.len(),
{
    if entries.len() > 0 {
        let front = entries.drop_last();
        let last = entries.last();
        lemma_collected_members(front, word);
        lemma_upsert_members(collected(front), last.0, last.1, word);
        if has_word(entries, word) && word != last.0 {
            let i = choose|i: int| 0 <= i < entries.len() && (#[trigger] entries[i]).0 == word;
            assert(front[i].0 == word);
        }
    }
}

/// The collected mapping holds the last entry for each word as it stands: where a word
/// is named more than once, the weight given last is the one that counts.
pub proof fn lemma_collected_last(entries: Seq<(Seq<char>, usize)>, i: int)
    requires
        0 <= i < entries.len(),
        forall|j: int| i < j < entries.len() ==> (#[trigger] entries[j]).0 != entries[i].0,
    ensures
        collected(entries).contains(entries[i]),
    decreases entries.len(),
{
    let front = entries.drop_last();
    let last = entries.last();
    let before = collected(front);
    let after = collected(entries);
    if i == entries.len() - 1 {
        if has_word(before, last.0) {
            let k = choose|k: int| 0 <= k < before.len() && (#[trigger] before[k]).0 == last.0;
            assert(after[k] == last);
        } else {
            assert(after[before.len() as int] == last);
        }
    } else {
        lemma_collected_last(front, i);
        let k = choose|k: int| 0 <= k < before.len() && before[k] == front[i];
        assert(after[k] == entries[i]);
    }
}

/// Filtering a second time by the same test changes nothing.
proof fn lemma_filter_twice<A>(s: Seq<A>, keep: spec_fn(A) -> bool)
    ensures
        s.filter(keep).filter(keep) == s.filter(keep),
    decreases s.len(),
{
    reveal(Seq::filter);
    if s.len() > 0 {
        lemma_filter_twice(s.drop_last(), keep);
        s.drop_last().filter(keep).lemma_filter_push(s.last(), keep);
    }
}

/// What pruning keeps: the words of the pool that are consistent with the round, and no
/// others.
pub proof fn lemma_pruned_members(pool: Seq<(Seq<char>, usize)>, prior: GuessView, word: Seq<char>)
    ensures
        has_word(pruned(pool, prior), word) <==> has_word(pool, word) && consistent(prior, word),
{
    let keep = |e: (Seq<char>, usize)| consistent(prior, e.0);
    let rest = pruned(pool, prior);
    if has_word(rest, word) {
        let i = choose|i: int| 0 <= i < rest.len() && (#[trigger] rest[i]).0 == word;
        pool.lemma_filter_pred(keep, i);
        pool.lemma_filter_contains_rev(keep, rest[i]);
    }
    if has_word(pool, word) && consistent(prior, word) {
        let j = choose|j: int| 0 <= j < pool.len() && (#[trigger] pool[j]).0 == word;
        pool.lemma_filter_contains(keep, j);
    }
}

/// Pruning keeps a pool a pool.
proof fn lemma_pruned_is_pool(pool: Seq<(Seq<char>, usize)>, prior: GuessView)
    requires
        is_pool(pool),
    ensures
        is_pool(pruned(pool, prior)),
    decreases pool.len(),
{
    reveal(Seq::filter);
    if pool.len() > 0 {
        let front = pool.drop_last();
        let kept = pruned(front, prior);
        lemma_pruned_is_pool(front, prior);
        assert forall|i: int| 0 <= i < kept.len() implies (#[trigger] kept[i]).0
            != pool.last().0 by {
            lemma_pruned_members(front, prior, kept[i].0);
        }
    }
}

/// Monotonicity: pruning never enlarges the pool, and a round that was scored against
/// `answer` never removes `answer` from it.
pub proof fn lemma_prune_keeps_answer(
    pool: Seq<(Seq<char>, usize)>,
    answer: Seq<char>,
    guess: Seq<char>,
)
    requires
        has_word(pool, answer),
    ensures
        pruned(pool, GuessView { word: guess, mask: score(answer, guess) }).len() <= pool.len(),
        has_word(pruned(pool, GuessView { word: guess, mask: score(answer, guess) }), answer),
{
    let prior = GuessView { word: guess, mask: score(answer, guess) };
    pool.lemma_filter_len(|e: (Seq<char>, usize)| consistent(prior, e.0));
    lemma_answer_consistent(answer, guess);
    lemma_pruned_members(pool, prior, answer);
}

/// Idempotence: pruning twice with one round leaves what pruning once leaves.
pub proof fn lemma_prune_twice(pool: Seq<(Seq<char>, usize)>, prior: GuessView)
    ensures
        pruned(pruned(pool, prior), prior) == pruned(pool, prior),
{
    lemma_filter_twice(pool, |e: (Seq<char>, usize)| consistent(prior, e.0));
}

/// Exactness: after pruning with every round of a history the pool holds the words it
/// held before that are consistent with all the rounds, and no others.
pub proof fn lemma_pruned_by_all_members(
    pool: Seq<(Seq<char>, usize)>,
    history: Seq<GuessView>,
    word: Seq<char>,
)
    ensures
        has_word(pruned_by_all(pool, history), word) <==> has_word(pool, word) && forall|k: int|
            0 <= k < history.len() ==> consistent(#[trigger] history[k], word),
    decreases history.len(),
{
    if history.len() > 0 {
        let earlier = history.drop_last();
        lemma_pruned_by_all_members(pool, earlier, word);
        lemma_pruned_members(pruned_by_all(pool, earlier), history.last(), word);
        if has_word(pruned_by_all(pool, history), word) {
            assert forall|k: int| 0 <= k < history.len() implies consistent(
                #[trigger] history[k],
                word,
            ) by {
                if k < earlier.len() {
                    assert(consistent(earlier[k], word));
                }
            }
        }
    }
}

/// The candidates of one game.
///
/// A pool starts as a whole dictionary and only ever shrinks. Its entries keep the order
/// in which the dictionary first named their words.
pub struct Pool {
    entries: Vec<(String, usize)>,
}

impl View for Pool {
    type V = Seq<(Seq<char>, usize)>;

    /// The entries of the pool, each word with its weight.
    closed spec fn view(&self) -> Seq<(Seq<char>, usize)> {
        entries_view(self.entries@)
    }
}

/// The place of `word` among `entries`, if it has one.
fn position(entries: &Vec<(String, usize)>, word: &String) -> (at: Option<usize>)
    ensures
        match at {
            Some(i) => i < entries@.len() && entries_view(entries@)[i as int].0 == word@,
            None => !has_word(entries_view(entries@), word@),
        },
{
    for i in 0..entries.len()
        invariant
            forall|j: int| 0 <= j < i ==> (#[trigger] entries_view(entries@)[j]).0 != word@,
    {
        if entries[i].0 == *word {
            return Some(i);
        }
    }
    None
}

impl Pool {
    /// What holds of every pool: its entries are a mapping of five-letter words.
    #[verifier::type_invariant]
    spec fn well_formed(self) -> bool {
        is_pool(entries_view(self.entries@))
    }

    /// Collects the entries of a dictionary into a pool.
    ///
    /// Fails if a word does not have five letters. Where the dictionary names a word
    /// more than once, the pool holds it once, with the weight given last.
    pub fn new(dictionary: Vec<(String, usize)>) -> (made: Result<Pool, WordleError>)
        ensures
            match made {
                Ok(pool) => {
                    &&& all_words(entries_view(dictionary@))
                    &&& pool@ == collected(entries_view(dictionary@))
                    &&& is_pool(pool@)
                },
                Err(e) => e == WordleError::InvalidLength && !all_words(
                    entries_view(dictionary@),
                ),
            },
    {
        let ghost source = entries_view(dictionary@);
        let mut entries: Vec<(String, usize)> = Vec::new();
        for entry in it: dictionary
            invariant
                it.seq() == dictionary@,
                source == entries_view(dictionary@),
                is_pool(entries_view(entries@)),
                all_words(source.take(it.index() as int)),
                entries_view(entries@) == collected(source.take(it.index() as int)),
        {
            let ghost seen = it.index() as int;
            let ghost before = entries_view(entries@);
            let (word, weight) = entry;
            assert(source[seen] == (word@, weight));
            assert(source.take(seen + 1).drop_last() =~= source.take(seen));
            if word.as_str().unicode_len() != WORD_LEN {
                return Err(WordleError::InvalidLength);
            }
            proof {
                lemma_upsert_is_pool(before, word@, weight);
            }
            match position(&entries, &word) {
                Some(i) => {
                    entries.set(i, (word, weight));
                },
                None => {
                    entries.push((word, weight));
                },
            }
            assert(entries_view(entries@) =~= upsert(before, word@, weight));
        }
        assert(source.take(source.len() as int) =~= source);
        Ok(Pool { entries })
    }

    /// Reads a dictionary from its text form and collects its entries into a pool.
    pub fn load(text: &str) -> (made: Result<Pool, WordleError>)
        ensures
            match made {
                Ok(pool) => loaded(text@) == Ok::<_, WordleError>(pool@),
                Err(e) => loaded(text@) == Err::<Seq<(Seq<char>, usize)>, _>(e),
            },
    {
        match parse(text) {
            Ok(entries) => Pool::new(entries),
            Err(e) => Err(e),
        }
    }

    /// Removes every entry whose word is not consistent with `prior`. What stays keeps
    /// its order, so the pool never grows.
    pub fn prune(&mut self, prior: &Guess)
        requires
            prior.wf(),
        ensures
            final(self)@ == pruned(old(self)@, prior@),
            final(self)@.len() <= old(self)@.len(),
            is_pool(final(self)@),
    {
        proof {
            use_type_invariant(&*self);
        }
        let mut entries: Vec<(String, usize)> = Vec::new();
        core::mem::swap(&mut self.entries, &mut entries);
        let ghost source = entries_view(entries@);
        let ghost keep = |e: (Seq<char>, usize)| consistent(prior@, e.0);
        let mut kept: Vec<(String, usize)> = Vec::new();
        for entry in it: entries
            invariant
                it.seq() == entries@,
                source == entries_view(entries@),
                all_words(source),
                prior.wf(),
                keep == |e: (Seq<char>, usize)| consistent(prior@, e.0),
                entries_view(kept@) == source.take(it.index() as int).filter(keep),
        {
            let ghost seen = it.index() as int;
            assert(source.take(seen + 1) =~= source.take(seen).push(source[seen]));
            proof {
                source.take(seen).lemma_filter_push(source[seen], keep);
            }
            if prior.matches(entry.0.as_str()) {
                kept.push(entry);
            }
        }
        proof {
            assert(source.take(source.len() as int) =~= source);
            lemma_pruned_is_pool(source, prior@);
            source.lemma_filter_len(keep);
        }
        self.entries = kept;
    }

    /// The surviving candidates with their weights, in the pool's order.
    pub fn entries(&self) -> (out: &[(String, usize)])
        ensures
            entries_view(out@) == self@,
            is_pool(self@),
    {
        proof {
            use_type_invariant(self);
        }
        self.entries.as_slice()
    }

    /// Whether `word` is a candidate.
    pub fn contains(&self, word: &str) -> (found: bool)
        ensures
            found == has_word(self@, word@),
    {
        let word = word.to_owned();
        position(&self.entries, &word).is_some()
    }

    /// The number of candidates.
    pub fn len(&self) -> (n: usize)
        ensures
            n == self@.len(),
    {
        self.entries.len()
    }
}

impl Clone for Pool {
    /// A pool of its own with the same entries, for another game.
    fn clone(&self) -> (copy: Pool)
        ensures
            copy@ == self@,
    {
        proof {
            use_type_invariant(self);
        }
        let ghost source = entries_view(self.entries@);
        let mut entries: Vec<(String, usize)> = Vec::new();
        for i in 0..self.entries.len()
            invariant
                source == entries_view(self.entries@),
                entries_view(entries@) == source.take(i as int),
        {
            let ghost before = entries_view(entries@);
            entries.push((self.entries[i].0.clone(), self.entries[i].1));
            assert(source.take(i + 1) =~= before.push(source[i as int]));
        }
        Pool { entries }
    }
}

} // verus!
