//! The baseline strategy: keep the candidates that fit the feedback, and propose the
//! most frequent of them.

use vstd::prelude::*;

use crate::correctness::{is_word, letters};
use crate::dictionary::entries_view;
use crate::error::WordleError;
use crate::guess::{Guess, Guesser};
use crate::pool::{is_pool, loaded, pruned, Pool};

verus! {

/// The order of a printed dictionary, on words of one length: `a` comes before `b` if
/// it has the smaller letter at the first position at which the two differ.
pub open spec fn precedes(a: Seq<char>, b: Seq<char>) -> bool {
    exists|k: int|
        0 <= k < a.len() && k < b.len() && #[trigger] a[k] < b[k] && a.take(k) == b.take(k)
}

/// Whether the candidate `a` is proposed rather than `b`: the one with the higher weight
/// is, and of two with the same weight the one whose word comes first.
pub open spec fn preferred(a: (Seq<char>, usize), b: (Seq<char>, usize)) -> bool {
    a.1 > b.1 || (a.1 == b.1 && precedes(a.0, b.0))
}

/// Whether entry `i` of `pool` is the one to propose: it is preferred to every other.
pub open spec fn is_favourite(pool: Seq<(Seq<char>, usize)>, i: int) -> bool {
    &&& 0 <= i < pool.len()
    &&& forall|j: int| 0 <= j < pool.len() && j != i ==> preferred(pool[i], #[trigger] pool[j])
}

/// No word comes before itself, and of two words none comes before the other both ways.
proof fn lemma_precedes_one_way(a: Seq<char>, b: Seq<char>)
    ensures
        !(precedes(a, b) && precedes(b, a)),
{
    if precedes(a, b) && precedes(b, a) {
        let k = choose|k: int|
            0 <= k < a.len() && k < b.len() && #[trigger] a[k] < b[k] && a.take(k) == b.take(k);
        let m = choose|m: int|
            0 <= m < b.len() && m < a.len() && #[trigger] b[m] < a[m] && b.take(m) == a.take(m);
        if k < m {
            assert(b.take(m)[k] == a.take(m)[k]);
        } else if m < k {
            assert(a.take(k)[m] == b.take(k)[m]);
        }
    }
}

/// Two different words of one length that agree on their first `n` letters: one comes
/// before the other.
proof fn lemma_precedes_from(a: Seq<char>, b: Seq<char>, n: int)
    requires
        a.len() == b.len(),
        0 <= n <= a.len(),
        a.take(n) == b.take(n),
        a != b,
    ensures
        precedes(a, b) || precedes(b, a),
    decreases a.len() - n,
{
    if n == a.len() {
        assert(a.take(n) =~= a);
        assert(b.take(n) =~= b);
    } else if a[n] < b[n] {
    } else if b[n] < a[n] {
    } else {
        assert(a.take(n + 1) =~= a.take(n).push(a[n]));
        assert(b.take(n + 1) =~= b.take(n).push(b[n]));
        lemma_precedes_from(a, b, n + 1);
    }
}

/// Of two different words of one length, one comes before the other.
proof fn lemma_precedes_either(a: Seq<char>, b: Seq<char>)
    requires
        a.len() == b.len(),
        a != b,
    ensures
        precedes(a, b) || precedes(b, a),
{
    assert(a.take(0) =~= b.take(0));
    lemma_precedes_from(a, b, 0);
}

/// Coming before is handed on: if `a` comes before `b` and `b` before `c`, then `a`
/// comes before `c`.
proof fn lemma_precedes_chain(a: Seq<char>, b: Seq<char>, c: Seq<char>)
    requires
        precedes(a, b),
        precedes(b, c),
    ensures
        precedes(a, c),
{
    let k = choose|k: int|
        0 <= k < a.len() && k < b.len() && #[trigger] a[k] < b[k] && a.take(k) == b.take(k);
    let m = choose|m: int|
        0 <= m < b.len() && m < c.len() && #[trigger] b[m] < c[m] && b.take(m) == c.take(m);
    if k <= m {
        assert(a.take(k) =~= c.take(k)) by {
            assert forall|j: int| 0 <= j < k implies a[j] == c[j] by {
                assert(b.take(m)[j] == c.take(m)[j]);
            }
        }
        if k < m {
            assert(b.take(m)[k] == c.take(m)[k]);
        }
    } else {
        assert(a.take(m) =~= c.take(m)) by {
            assert forall|j: int| 0 <= j < m implies a[j] == c[j] by {
                assert(b.take(m)[j] == c.take(m)[j]);
            }
        }
        assert(a.take(k)[m] == b.take(k)[m]);
    }
}

/// A pool has at most one favourite.
pub proof fn lemma_favourite_unique(pool: Seq<(Seq<char>, usize)>, i: int, j: int)
    requires
        is_favourite(pool, i),
        is_favourite(pool, j),
    ensures
        i == j,
{
    if i != j {
        lemma_precedes_one_way(pool[i].0, pool[j].0);
    }
}

/// Whether `a` comes before `b` in the order of a printed dictionary.
fn comes_before(a: &str, b: &str) -> (before: bool)
    requires
        is_word(a@),
        is_word(b@),
    ensures
        before == precedes(a@, b@),
{
    let x = letters(a);
    let y = letters(b);
    for i in 0..5usize
        invariant
            x@ == a@,
            y@ == b@,
            x@.take(i as int) == y@.take(i as int),
    {
        if x[i] != y[i] {
            proof {
                if y[i as int] < x[i as int] {
                    lemma_precedes_one_way(a@, b@);
                }
            }
            return x[i] < y[i];
        }
    }
    proof {
        assert(y@.take(5) =~= y@);
        lemma_precedes_one_way(a@, a@);
    }
    false
}

/// The strategy that proposes the most frequent word among those that fit all feedback.
pub struct Naive {
    remaining: Pool,
}

impl View for Naive {
    type V = Seq<(Seq<char>, usize)>;

    /// The candidates that are left, with their weights.
    closed spec fn view(&self) -> Seq<(Seq<char>, usize)> {
        self.remaining@
    }
}

impl Naive {
    /// A strategy whose candidates are the words of the dictionary that `dictionary`
    /// holds in its text form.
    pub fn new(dictionary: &str) -> (made: Result<Naive, WordleError>)
        ensures
            match made {
                Ok(naive) => loaded(dictionary@) == Ok::<_, WordleError>(naive@),
                Err(e) => loaded(dictionary@) == Err::<Seq<(Seq<char>, usize)>, _>(e),
            },
    {
        match Pool::load(dictionary) {
            Ok(pool) => Ok(Naive { remaining: pool }),
            Err(e) => Err(e),
        }
    }

    /// A strategy whose candidates are the words of `pool`.
    pub fn with_pool(pool: Pool) -> (naive: Naive)
        ensures
            naive@ == pool@,
    {
        Naive { remaining: pool }
    }

    /// The candidates that are left.
    pub fn remaining(&self) -> (pool: &Pool)
        ensures
            pool@ == self@,
    {
        &self.remaining
    }
}

impl Guesser for Naive {
    /// Drops the candidates that do not fit the latest round, then proposes the
    /// favourite of those that are left.
    fn guess(&mut self, history: &[Guess]) -> (next: Result<String, WordleError>)
        ensures
            final(self)@ == if history@.len() == 0 {
                old(self)@
            } else {
                pruned(old(self)@, history@.last()@)
            },
            match next {
                Ok(word) => exists|i: int|
                    is_favourite(final(self)@, i) && word@ == (#[trigger] final(self)@[i]).0,
                Err(e) => e == WordleError::Exhausted && final(self)@.len() == 0,
            },
    {
        if let Some(last) = history.last() {
            self.remaining.prune(last);
        }
        let entries = self.remaining.entries();
        if entries.len() == 0 {
            return Err(WordleError::Exhausted);
        }
        let ghost pool = entries_view(entries@);
        let mut best: usize = 0;
        for i in 1..entries.len()
            invariant
                pool == entries_view(entries@),
                is_pool(pool),
                0 <= best < i <= entries@.len(),
                forall|j: int|
                    0 <= j < i && j != best ==> preferred(pool[best as int], #[trigger] pool[j]),
        {
            assert(is_word(pool[i as int].0) && is_word(pool[best as int].0));
            let heavier = entries[i].1 > entries[best].1;
            let earlier = entries[i].1 == entries[best].1 && comes_before(
                entries[i].0.as_str(),
                entries[best].0.as_str(),
            );
            proof {
                let old_best = pool[best as int];
                let new = pool[i as int];
                if heavier || earlier {
                    assert forall|j: int| 0 <= j < i && j != best implies preferred(
                        new,
                        #[trigger] pool[j],
                    ) by {
                        if new.1 == old_best.1 && old_best.1 == pool[j].1 {
                            lemma_precedes_chain(new.0, old_best.0, pool[j].0);
                        }
                    }
                } else if new.1 == old_best.1 {
                    lemma_precedes_either(new.0, old_best.0);
                }
            }
            if heavier || earlier {
                best = i;
            }
        }
        let word = entries[best].0.clone();
        assert(is_favourite(self@, best as int) && self@[best as int].0 == word@);
        Ok(word)
    }
}

} // verus!
