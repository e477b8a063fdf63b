//! The text form of a dictionary: one entry on each line, a word, one space, and the
//! frequency of the word as a decimal number.

use vstd::prelude::*;
use vstd::string::is_ascii;

use crate::error::WordleError;

verus! {

/// The entries of a dictionary as mathematical values: each word with its weight.
pub open spec fn entries_view(entries: Seq<(String, usize)>) -> Seq<(Seq<char>, usize)> {
    entries.map_values(|e: (String, usize)| (e.0@, e.1))
}

/// The first position at or after `from` at which `s` holds `c`, or the length of `s`
/// if there is none.
pub open spec fn find(s: Seq<char>, c: char, from: int) -> int
    decreases s.len() - from,
{
    if 0 <= from < s.len() && s[from] != c {
        find(s, c, from + 1)
    } else {
        from
    }
}

/// The line that starts at `from`, without its line ending. A line ends before the next
/// line feed, and before the carriage return in front of it if there is one; the last
/// line may also end with the text.
pub open spec fn line_at(text: Seq<char>, from: int) -> Seq<char> {
    let end = find(text, '\n', from);
    if from < end < text.len() && text[end - 1] == '\r' {
        text.subrange(from, end - 1)
    } else {
        text.subrange(from, end)
    }
}

/// The lines of `text` from position `from` on.
pub open spec fn lines_from(text: Seq<char>, from: int) -> Seq<Seq<char>>
    decreases text.len() + 1 - from,
{
    if 0 <= from < text.len() {
        proof {
            lemma_find_bounds(text, '\n', from);
        }
        seq![line_at(text, from)] + lines_from(text, find(text, '\n', from) + 1)
    } else {
        Seq::empty()
    }
}

/// The lines of `text`. A line feed at the very end starts no further line.
pub open spec fn lines(text: Seq<char>) -> Seq<Seq<char>> {
    lines_from(text, 0)
}

/// Whether `c` is one of the digits `0` to `9`.
pub open spec fn is_digit(c: char) -> bool {
    '0' <= c <= '9'
}

/// The number that a string of digits denotes, read as a decimal.
pub open spec fn decimal(digits: Seq<char>) -> nat
    decreases digits.len(),
{
    if digits.len() == 0 {
        0
    } else {
        (decimal(digits.drop_last()) * 10 + (digits.last() as u32 - '0' as u32)) as nat
    }
}

/// The number that `digits` denotes: there must be at least one digit and nothing but
/// digits, and a `usize` must be able to hold the number.
pub open spec fn number_of(digits: Seq<char>) -> Option<usize> {
    if digits.len() > 0 && (forall|i: int| 0 <= i < digits.len() ==> is_digit(digits[i]))
        && decimal(digits) <= usize::MAX {
        Some(decimal(digits) as usize)
    } else {
        None
    }
}

/// The weight that `field` denotes: a number, with or without a plus sign in front.
pub open spec fn weight_of(field: Seq<char>) -> Option<usize> {
    if field.len() > 0 && field[0] == '+' {
        number_of(field.drop_first())
    } else {
        number_of(field)
    }
}

/// The entry that `line` denotes: the word is what stands before the first space, the
/// weight is what the rest denotes.
pub open spec fn entry_of(line: Seq<char>) -> Option<(Seq<char>, usize)> {
    let space = find(line, ' ', 0);
    if space < line.len() {
        match weight_of(line.subrange(space + 1, line.len() as int)) {
            Some(weight) => Some((line.subrange(0, space), weight)),
            None => None,
        }
    } else {
        None
    }
}

/// The entries that `text` denotes, line by line, if every line denotes one.
pub open spec fn entries_of(text: Seq<char>) -> Option<Seq<(Seq<char>, usize)>> {
    let all = lines(text);
    if forall|i: int| 0 <= i < all.len() ==> entry_of(#[trigger] all[i]) is Some {
        Some(all.map_values(|line: Seq<char>| entry_of(line).unwrap()))
    } else {
        None
    }
}

/// What `find` gives lies between `from` and the end, holds `c` unless it is the end,
/// and has no `c` between `from` and itself.
pub proof fn lemma_find_bounds(s: Seq<char>, c: char, from: int)
    requires
        0 <= from <= s.len(),
    ensures
        from <= find(s, c, from) <= s.len(),
        find(s, c, from) < s.len() ==> s[find(s, c, from)] == c,
        forall|k: int| from <= k < find(s, c, from) ==> s[k] != c,
    decreases s.len() - from,
{
    if from < s.len() && s[from] != c {
        lemma_find_bounds(s, c, from + 1);
    }
}

/// A position with these properties is the one that `find` gives.
proof fn lemma_find_is(s: Seq<char>, c: char, from: int, at: int)
    requires
        0 <= from <= at <= s.len(),
        at < s.len() ==> s[at] == c,
        forall|k: int| from <= k < at ==> s[k] != c,
    ensures
        find(s, c, from) == at,
    decreases at - from,
{
    if from < at {
        lemma_find_is(s, c, from + 1, at);
    }
}

/// The number that some first digits denote is no larger than the number that all of
/// them denote.
proof fn lemma_decimal_grows(digits: Seq<char>, n: int)
    requires
        0 <= n <= digits.len(),
        forall|i: int| 0 <= i < digits.len() ==> is_digit(digits[i]),
    ensures
        decimal(digits.take(n)) <= decimal(digits),
    decreases digits.len() - n,
{
    if n == digits.len() {
        assert(digits.take(n) =~= digits);
    } else {
        lemma_decimal_grows(digits.drop_last(), n);
        assert(digits.drop_last().take(n) =~= digits.take(n));
    }
}

/// The characters of `text`, one by one.
fn characters(text: &str) -> (out: Vec<char>)
    ensures
        out@ == text@,
{
    let mut out: Vec<char> = Vec::new();
    for c in it: text.chars()
        invariant
            it.seq() == text@,
            out@ == it.seq().take(it.index() as int),
    {
        out.push(c);
    }
    out
}

/// The first position from `from` on and before `to` at which `text` holds `c`, or `to`
/// if there is none.
fn seek(text: &Vec<char>, c: char, from: usize, to: usize) -> (at: usize)
    requires
        from <= to <= text@.len(),
    ensures
        from <= at <= to,
        at < to ==> text@[at as int] == c,
        forall|k: int| from <= k < at ==> text@[k] != c,
{
    let mut at = from;
    while at < to && text[at] != c
        invariant
            from <= at <= to <= text@.len(),
            forall|k: int| from <= k < at ==> text@[k] != c,
        decreases to - at,
    {
        at += 1;
    }
    at
}

/// The characters of `text` from `from` on and before `to`, as a string of its own.
///
/// `ascii` says whether `text` is known to hold nothing but ASCII, in which case the
/// characters are found where they are counted; otherwise they are counted out from the
/// start of the text.
fn extract(text: &str, ascii: bool, from: usize, to: usize) -> (out: String)
    requires
        ascii ==> is_ascii(text),
        from <= to <= text@.len(),
    ensures
        out@ == text@.subrange(from as int, to as int),
{
    if ascii {
        text.substring_ascii(from, to).to_owned()
    } else {
        text.substring_char(from, to).to_owned()
    }
}

/// Reads the number that stands in `text` from `from` on and before `to`.
fn read_number(text: &Vec<char>, from: usize, to: usize) -> (number: Option<usize>)
    requires
        from <= to <= text@.len(),
    ensures
        number == number_of(text@.subrange(from as int, to as int)),
{
    let ghost digits = text@.subrange(from as int, to as int);
    if from == to {
        return None;
    }
    let mut value: usize = 0;
    for i in from..to
        invariant
            from <= to <= text@.len(),
            digits == text@.subrange(from as int, to as int),
            forall|k: int| 0 <= k < i - from ==> is_digit(digits[k]),
            value == decimal(digits.take(i - from)),
    {
        let c = text[i];
        assert(digits[i - from] == c);
        if c < '0' || c > '9' {
            return None;
        }
        assert(digits.take(i - from + 1).drop_last() =~= digits.take(i - from));
        let digit = (c as u32 - '0' as u32) as usize;
        let grown = match value.checked_mul(10) {
            Some(tenfold) => tenfold.checked_add(digit),
            None => None,
        };
        match grown {
            Some(larger) => {
                value = larger;
            },
            None => {
                proof {
                    if forall|k: int| 0 <= k < digits.len() ==> is_digit(digits[k]) {
                        lemma_decimal_grows(digits, i - from + 1);
                    }
                }
                return None;
            },
        }
    }
    assert(digits.take(to - from) =~= digits);
    Some(value)
}

/// Reads the weight that stands in `text` from `from` on and before `to`.
fn read_weight(text: &Vec<char>, from: usize, to: usize) -> (weight: Option<usize>)
    requires
        from <= to <= text@.len(),
    ensures
        weight == weight_of(text@.subrange(from as int, to as int)),
{
    let ghost field = text@.subrange(from as int, to as int);
    if from < to && text[from] == '+' {
        assert(field.drop_first() =~= text@.subrange(from + 1, to as int));
        read_number(text, from + 1, to)
    } else {
        read_number(text, from, to)
    }
}

/// Reads the entry that stands in `source` from `from` on and before `to`. `text` holds
/// the characters of `source`, and `ascii` says whether they are known to be ASCII all.
fn read_entry(
    source: &str,
    ascii: bool,
    text: &Vec<char>,
    from: usize,
    to: usize,
) -> (entry: Option<(String, usize)>)
    requires
        text@ == source@,
        ascii ==> is_ascii(source),
        from <= to <= text@.len(),
    ensures
        match entry {
            Some(e) => entry_of(text@.subrange(from as int, to as int)) == Some((e.0@, e.1)),
            None => entry_of(text@.subrange(from as int, to as int)) is None,
        },
{
    let ghost line = text@.subrange(from as int, to as int);
    let space = seek(text, ' ', from, to);
    proof {
        lemma_find_is(line, ' ', 0, space - from);
    }
    if space == to {
        return None;
    }
    assert(line.subrange(space - from + 1, line.len() as int) =~= text@.subrange(
        space + 1,
        to as int,
    ));
    match read_weight(text, space + 1, to) {
        Some(weight) => Some((extract(source, ascii, from, space), weight)),
        None => None,
    }
}

/// Reads a dictionary.
///
/// Every line must hold a word, one space and the word's frequency; the word is what
/// stands before the first space. Lines end with a line feed, or with a carriage return
/// and a line feed, and the last line may go without. One line that is not of that form
/// makes the whole text malformed.
pub fn parse(text: &str) -> (parsed: Result<Vec<(String, usize)>, WordleError>)
    ensures
        match parsed {
            Ok(entries) => entries_of(text@) == Some(entries_view(entries@)),
            Err(e) => e == WordleError::MalformedDictionaryEntry && entries_of(text@) is None,
        },
{
    let letters = characters(text);
    let ascii = text.is_ascii();
    let n = letters.len();
    let mut entries: Vec<(String, usize)> = Vec::new();
    let ghost mut done: Seq<Seq<char>> = Seq::empty();
    let mut from: usize = 0;
    while from < n
        invariant
            letters@ == text@,
            ascii ==> is_ascii(text),
            n == letters@.len(),
            from <= n,
            lines(text@) == done + lines_from(text@, from as int),
            done.len() == entries@.len(),
            forall|i: int|
                0 <= i < done.len() ==> entry_of(#[trigger] done[i]) == Some(
                    entries_view(entries@)[i],
                ),
        decreases n - from,
    {
        let end = seek(&letters, '\n', from, n);
        proof {
            lemma_find_is(text@, '\n', from as int, end as int);
        }
        let stop = if from < end && end < n && letters[end - 1] == '\r' {
            end - 1
        } else {
            end
        };
        let ghost line = line_at(text@, from as int);
        assert(lines(text@) =~= done.push(line) + lines_from(text@, end + 1));
        match read_entry(text, ascii, &letters, from, stop) {
            Some(entry) => {
                entries.push(entry);
                proof {
                    done = done.push(line);
                }
            },
            None => {
                assert(lines(text@)[done.len() as int] == line);
                return Err(WordleError::MalformedDictionaryEntry);
            },
        }
        from = if end < n {
            end + 1
        } else {
            n
        };
    }
    Ok(entries)
}

} // verus!
