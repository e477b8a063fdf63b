use wordle_solver::pool::Pool;
use wordle_solver::{Correctness, Guess, WordleError};

fn entries(list: &[(&str, usize)]) -> Vec<(String, usize)> {
    list.iter().map(|(word, weight)| (word.to_string(), *weight)).collect()
}

fn pool(list: &[(&str, usize)]) -> Pool {
    Pool::new(entries(list)).unwrap()
}

fn scored(answer: &str, guess: &str) -> Guess {
    Guess { word: guess.to_string(), mask: Correctness::compute(answer, guess) }
}

const WORDS: [(&str, usize); 8] = [
    ("moved", 5),
    ("right", 9),
    ("wrong", 7),
    ("tight", 3),
    ("light", 3),
    ("eight", 4),
    ("wring", 1),
    ("girth", 2),
];

#[test]
fn a_pool_holds_the_entries_in_their_order() {
    let p = pool(&WORDS);
    assert_eq!(p.len(), 8);
    assert_eq!(p.entries(), entries(&WORDS));
}

#[test]
fn an_empty_dictionary_makes_an_empty_pool() {
    let p = pool(&[]);
    assert_eq!(p.len(), 0);
    assert!(p.entries().is_empty());
    assert!(!p.contains("moved"));
}

#[test]
fn a_word_named_twice_takes_the_later_weight() {
    let p = pool(&[("moved", 1), ("right", 2), ("moved", 3), ("wrong", 4), ("right", 5)]);
    assert_eq!(p.entries(), entries(&[("moved", 3), ("right", 5), ("wrong", 4)]));
    let p = pool(&[("moved", 1), ("moved", 1), ("moved", 0)]);
    assert_eq!(p.entries(), entries(&[("moved", 0)]));
}

#[test]
fn a_word_of_another_length_makes_no_pool() {
    for bad in ["", "move", "moving", "move d ", "fléa"] {
        let made = Pool::new(entries(&[("right", 1), (bad, 2), ("wrong", 3)]));
        assert!(matches!(made, Err(WordleError::InvalidLength)), "{bad:?}");
    }
    // five letters, more than five bytes
    assert_eq!(pool(&[("fléau", 1)]).len(), 1);
}

#[test]
fn loading_reads_and_collects() {
    let p = Pool::load("moved 1\nright 2\nmoved 3\n").unwrap();
    assert_eq!(p.entries(), entries(&[("moved", 3), ("right", 2)]));
    assert!(matches!(Pool::load("moved 1\nright\n"), Err(WordleError::MalformedDictionaryEntry)));
    assert!(matches!(Pool::load("moved 1\nrigh 2\n"), Err(WordleError::InvalidLength)));
    // a malformed line is reported before a word of another length
    assert!(matches!(Pool::load("move 1\nright\n"), Err(WordleError::MalformedDictionaryEntry)));
}

#[test]
fn contains_finds_whole_words() {
    let p = pool(&WORDS);
    for (word, _) in WORDS {
        assert!(p.contains(word));
    }
    assert!(!p.contains("might"));
    assert!(!p.contains("righ"));
    assert!(!p.contains("rights"));
    assert!(!p.contains(""));
    assert!(!p.contains("RIGHT"));
}

#[test]
fn pruning_keeps_the_consistent_words_in_order() {
    let mut p = pool(&WORDS);
    p.prune(&scored("light", "right"));
    // `_ight`, and no `r`
    assert_eq!(p.entries(), entries(&[("tight", 3), ("light", 3), ("eight", 4)]));
    p.prune(&scored("light", "tight"));
    // one `t` only, at the end
    assert_eq!(p.entries(), entries(&[("light", 3), ("eight", 4)]));
    p.prune(&scored("light", "eight"));
    assert_eq!(p.entries(), entries(&[("light", 3)]));
    p.prune(&scored("light", "light"));
    assert_eq!(p.entries(), entries(&[("light", 3)]));
}

#[test]
fn pruning_never_grows_the_pool_and_keeps_the_answer() {
    for (answer, _) in WORDS {
        for (guess, _) in WORDS {
            let mut p = pool(&WORDS);
            p.prune(&scored(answer, guess));
            assert!(p.len() <= 8);
            assert!(p.contains(answer), "{answer} after {guess}");
            assert_eq!(p.contains(guess), guess == answer);
        }
    }
}

#[test]
fn pruning_twice_is_pruning_once() {
    for (answer, _) in WORDS {
        for (guess, _) in WORDS {
            let prior = scored(answer, guess);
            let mut once = pool(&WORDS);
            once.prune(&prior);
            let mut twice = pool(&WORDS);
            twice.prune(&prior);
            twice.prune(&prior);
            assert_eq!(once.entries(), twice.entries());
        }
    }
}

#[test]
fn pruning_keeps_exactly_what_matches() {
    for (answer, _) in WORDS {
        for (guess, _) in WORDS {
            let prior = scored(answer, guess);
            let mut p = pool(&WORDS);
            p.prune(&prior);
            let expected: Vec<(String, usize)> =
                entries(&WORDS).into_iter().filter(|(word, _)| prior.matches(word)).collect();
            assert_eq!(p.entries(), expected);
        }
    }
}

#[test]
fn pruning_can_empty_the_pool() {
    let mut p = pool(&WORDS);
    p.prune(&scored("zzzzz", "right"));
    p.prune(&scored("zzzzz", "moved"));
    assert_eq!(p.len(), 0);
    p.prune(&scored("zzzzz", "wrong"));
    assert_eq!(p.len(), 0);
}

#[test]
fn a_copy_is_a_pool_of_its_own() {
    let whole = pool(&WORDS);
    let mut copy = whole.clone();
    assert_eq!(copy.entries(), whole.entries());
    copy.prune(&scored("light", "right"));
    assert_eq!(copy.len(), 3);
    assert_eq!(whole.len(), 8);
    assert_eq!(whole.entries(), entries(&WORDS));
}
