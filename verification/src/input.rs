//! Reading a task from text: lines of numbers separated by white space.
//!
//! The first line holds the number of books, the number of libraries and
//! the days; the second the scores of the books. Then come two lines for
//! each library: the number of its books, its sign-up days and its books
//! per day; and the identifiers of its books.

use crate::plan::unknown_book;
use crate::task::{first_unknown, holds_id, Library, ScanningTask, TaskError, MAX_ENTRIES};
use vstd::prelude::*;
use vstd::string::StringSliceAdditionalSpecFns;

verus! {

/// Why a text is not a task.
#[derive(Clone, Copy, Debug, PartialEq, Eq, Structural)]
pub enum ParseError {
    /// The text ends before all the lines that it announces.
    Incomplete,
    /// A word of a line, both counted from zero, is not a number.
    InvalidNumber { line: u64, word: usize, fault: NumberFault },
    /// A line does not have the numbers it should have.
    InvalidFormat { line: u64 },
    /// A library lists a book that the task does not have.
    InvalidBookId { book: u32, library: u32 },
}

/// Why a word is not a number.
#[derive(Clone, Copy, Debug, PartialEq, Eq, Structural)]
pub enum NumberFault {
    /// The word is empty, a lone sign, or holds a byte that is no digit.
    InvalidDigit,
    /// The digits stand for a number above `u32::MAX`.
    TooLarge,
}

/// White space: tab, line feed, vertical tab, form feed, carriage return
/// and space.
pub open spec fn is_space(b: u8) -> bool {
    9 <= b <= 13 || b == 32
}

/// A decimal digit.
pub open spec fn is_digit(b: u8) -> bool {
    48 <= b <= 57
}

/// What separates pieces: line feeds where lines are asked for, else any
/// white space.
pub open spec fn separates(b: u8, by_line: bool) -> bool {
    if by_line {
        b == 10
    } else {
        is_space(b)
    }
}

/// The pieces of `text` between separators; one more than there are
/// separators, and empty where two separators meet or the text begins or
/// ends with one.
pub open spec fn pieces(text: Seq<u8>, by_line: bool) -> Seq<Seq<u8>>
    decreases text.len(),
{
    if text.len() == 0 {
        seq![Seq::<u8>::empty()]
    } else {
        let before = pieces(text.drop_last(), by_line);
        if separates(text.last(), by_line) {
            before.push(Seq::<u8>::empty())
        } else {
            before.drop_last().push(before.last().push(text.last()))
        }
    }
}

/// The lines of a text: what stands between line feeds. Text after the
/// last line feed is a line if it is not empty.
pub open spec fn lines_of(text: Seq<u8>) -> Seq<Seq<u8>> {
    let all = pieces(text, true);
    if all.last().len() == 0 {
        all.drop_last()
    } else {
        all
    }
}

/// The words of a line: the runs of bytes between white space.
pub open spec fn words_of(line: Seq<u8>) -> Seq<Seq<u8>> {
    pieces(line, false).filter(|w: Seq<u8>| w.len() > 0)
}

/// The byte sequences that the vectors hold.
pub open spec fn texts(list: Seq<Vec<u8>>) -> Seq<Seq<u8>> {
    list.map_values(|v: Vec<u8>| v@)
}

/// There is always a piece.
pub proof fn lemma_pieces_nonempty(text: Seq<u8>, by_line: bool)
    ensures
        pieces(text, by_line).len() > 0,
    decreases text.len(),
{
    if text.len() > 0 {
        lemma_pieces_nonempty(text.drop_last(), by_line);
    }
}

/// No piece holds a separator.
pub proof fn lemma_pieces_hold_no_separator(text: Seq<u8>, by_line: bool)
    ensures
        forall|p: int, i: int|
            0 <= p < pieces(text, by_line).len() && 0 <= i < pieces(text, by_line)[p].len()
                ==> !separates(#[trigger] pieces(text, by_line)[p][i], by_line),
    decreases text.len(),
{
    if text.len() > 0 {
        let before = pieces(text.drop_last(), by_line);
        let all = pieces(text, by_line);
        lemma_pieces_hold_no_separator(text.drop_last(), by_line);
        lemma_pieces_nonempty(text.drop_last(), by_line);
        assert forall|p: int, i: int| 0 <= p < all.len() && 0 <= i < all[p].len() implies !separates(
            #[trigger] all[p][i],
            by_line,
        ) by {
            if p < before.len() - 1 {
                assert(all[p] == before[p]);
                assert(!separates(before[p][i], by_line));
            } else if !separates(text.last(), by_line) && i < before.last().len() {
                assert(all[p][i] == before[before.len() - 1][i]);
                assert(!separates(before[before.len() - 1][i], by_line));
            }
        }
    }
}

/// The pieces, with a line feed between each two.
pub open spec fn joined(parts: Seq<Seq<u8>>) -> Seq<u8>
    decreases parts.len(),
{
    if parts.len() == 0 {
        Seq::<u8>::empty()
    } else if parts.len() == 1 {
        parts[0]
    } else {
        joined(parts.drop_last()) + seq![10u8] + parts.last()
    }
}

/// A text is its pieces between line feeds, with the line feeds put back.
pub proof fn lemma_pieces_join(text: Seq<u8>)
    ensures
        joined(pieces(text, true)) == text,
    decreases text.len(),
{
    if text.len() > 0 {
        let before = pieces(text.drop_last(), true);
        lemma_pieces_join(text.drop_last());
        lemma_pieces_nonempty(text.drop_last(), true);
        if text.last() == 10 {
            assert(before.push(Seq::<u8>::empty()).drop_last() == before);
            assert(joined(before) + seq![10u8] + Seq::<u8>::empty() == text.drop_last().push(
                text.last(),
            ));
        } else {
            let grown = before.drop_last().push(before.last().push(text.last()));
            assert(grown.drop_last() == before.drop_last());
            if before.len() == 1 {
                assert(joined(grown) == before[0].push(text.last()));
            } else {
                assert(joined(grown) == joined(before.drop_last()) + seq![10u8] + before.last().push(
                    text.last(),
                ));
                assert(joined(before.drop_last()) + seq![10u8] + before.last().push(text.last())
                    == (joined(before.drop_last()) + seq![10u8] + before.last()).push(text.last()));
            }
        }
        assert(text == text.drop_last().push(text.last()));
    }
}

/// Splits `text` at its separators.
fn split(text: &[u8], by_line: bool) -> (parts: Vec<Vec<u8>>)
    ensures
        texts(parts@) == pieces(text@, by_line),
{
    let mut done: Vec<Vec<u8>> = Vec::new();
    let mut current: Vec<u8> = Vec::new();
    let mut i: usize = 0;
    assert(text@.take(0) == Seq::<u8>::empty());
    assert(texts(done@).push(current@) == pieces(text@.take(0), by_line));
    while i < text.len()
        invariant
            i <= text.len(),
            texts(done@).push(current@) == pieces(text@.take(i as int), by_line),
        decreases text.len() - i,
    {
        let b = text[i];
        let ghost before = pieces(text@.take(i as int), by_line);
        let ghost old_done = done@;
        let ghost old_current = current@;
        proof {
            assert(text@.take(i + 1).drop_last() == text@.take(i as int));
            assert(text@.take(i + 1).last() == b);
            assert(before.last() == old_current);
            assert(before.drop_last() == texts(old_done));
        }
        let is_separator = if by_line {
            b == 10
        } else {
            (9 <= b && b <= 13) || b == 32
        };
        if is_separator {
            done.push(current);
            current = Vec::new();
            proof {
                assert(texts(done@) == texts(old_done).push(old_current));
            }
        } else {
            current.push(b);
        }
        i += 1;
    }
    assert(text@.take(i as int) == text@);
    let ghost old_done = done@;
    done.push(current);
    assert(texts(done@) == texts(old_done).push(current@));
    done
}

/// The lines of `text`.
pub fn lines(text: &[u8]) -> (lines: Vec<Vec<u8>>)
    ensures
        texts(lines@) == lines_of(text@),
{
    let mut parts = split(text, true);
    proof {
        lemma_pieces_nonempty(text@, true);
    }
    let ghost all = parts@;
    if parts[parts.len() - 1].len() == 0 {
        parts.pop();
        assert(texts(parts@) == texts(all).drop_last());
    }
    parts
}

/// The words of `line`.
pub fn words(line: &[u8]) -> (words: Vec<Vec<u8>>)
    ensures
        texts(words@) == words_of(line@),
{
    let parts = split(line, false);
    let ghost all = texts(parts@);
    let ghost full = |w: Seq<u8>| w.len() > 0;
    let mut words: Vec<Vec<u8>> = Vec::new();
    assert(all.take(0).filter(full) == Seq::<Seq<u8>>::empty()) by {
        reveal(Seq::filter);
    }
    for part in it: parts
        invariant
            all == texts(parts@),
            it.seq() == parts@,
            full == |w: Seq<u8>| w.len() > 0,
            texts(words@) == all.take(it.index() as int).filter(full),
    {
        let ghost i = it.index() as int;
        let ghost before = words@;
        proof {
            assert(all[i] == part@);
            assert(all.take(i + 1) == all.take(i).push(part@));
            all.take(i).lemma_filter_push(part@, full);
        }
        if part.len() > 0 {
            words.push(part);
            assert(texts(words@) == texts(before).push(part@));
        }
    }
    assert(all.take(all.len() as int) == all);
    words
}

/// The digit that a byte stands for; zero if it is no digit.
pub open spec fn digit_of(b: u8) -> nat {
    if is_digit(b) {
        (b - 48) as nat
    } else {
        0
    }
}

/// The number that the digits stand for, in base ten.
pub open spec fn digits_value(digits: Seq<u8>) -> nat
    decreases digits.len(),
{
    if digits.len() == 0 {
        0
    } else {
        digits_value(digits.drop_last()) * 10 + digit_of(digits.last())
    }
}

/// The number of digits that `text` begins with.
pub open spec fn digit_run(text: Seq<u8>) -> nat
    decreases text.len(),
{
    if text.len() == 0 || !is_digit(text[0]) {
        0
    } else {
        1 + digit_run(text.drop_first())
    }
}

/// The word without a plus sign in front.
pub open spec fn unsigned(word: Seq<u8>) -> Seq<u8> {
    if word.len() > 0 && word[0] == 43 {
        word.drop_first()
    } else {
        word
    }
}

/// The number that a word stands for: its digits in base ten, after an
/// optional plus sign. Digits that run above `u32::MAX` are too large,
/// whatever follows them; else a byte that is no digit, or no digit at
/// all, is an invalid digit.
pub open spec fn number_of(word: Seq<u8>) -> Result<u32, NumberFault> {
    let body = unsigned(word);
    let run = body.take(digit_run(body) as int);
    if digits_value(run) > u32::MAX {
        Err(NumberFault::TooLarge)
    } else if run.len() < body.len() || body.len() == 0 {
        Err(NumberFault::InvalidDigit)
    } else {
        Ok(digits_value(body) as u32)
    }
}

/// The digits that a text begins with are no more than its bytes.
pub proof fn lemma_digit_run_bound(text: Seq<u8>)
    ensures
        digit_run(text) <= text.len(),
    decreases text.len(),
{
    if text.len() > 0 && is_digit(text[0]) {
        lemma_digit_run_bound(text.drop_first());
    }
}

/// A text that begins with `n` digits and goes on with none, or ends
/// there, begins with exactly `n` digits.
pub proof fn lemma_digit_run(text: Seq<u8>, n: int)
    requires
        0 <= n <= text.len(),
        forall|j: int| 0 <= j < n ==> is_digit(text[j]),
        n == text.len() || !is_digit(text[n]),
    ensures
        digit_run(text) == n,
    decreases text.len(),
{
    if n > 0 {
        let rest = text.drop_first();
        assert forall|j: int| 0 <= j < n - 1 implies is_digit(rest[j]) by {
            assert(rest[j] == text[j + 1]);
        }
        lemma_digit_run(rest, n - 1);
    }
}

/// A text that begins with `n` digits begins with at least `n` digits.
pub proof fn lemma_digit_run_at_least(text: Seq<u8>, n: int)
    requires
        0 <= n <= text.len(),
        forall|j: int| 0 <= j < n ==> is_digit(text[j]),
    ensures
        digit_run(text) >= n,
    decreases text.len(),
{
    if n > 0 {
        let rest = text.drop_first();
        assert forall|j: int| 0 <= j < n - 1 implies is_digit(rest[j]) by {
            assert(rest[j] == text[j + 1]);
        }
        lemma_digit_run_at_least(rest, n - 1);
    }
}

/// More digits do not stand for less.
pub proof fn lemma_value_grows(digits: Seq<u8>, shorter: int, longer: int)
    requires
        0 <= shorter <= longer <= digits.len(),
    ensures
        digits_value(digits.take(shorter)) <= digits_value(digits.take(longer)),
    decreases longer,
{
    if shorter < longer {
        lemma_value_grows(digits, shorter, longer - 1);
        assert(digits.take(longer).drop_last() == digits.take(longer - 1));
    }
}

/// The number that `word` stands for.
pub fn number(word: &[u8]) -> (r: Result<u32, NumberFault>)
    ensures
        r == number_of(word@),
{
    let start: usize = if word.len() > 0 && word[0] == 43 {
        1
    } else {
        0
    };
    let ghost body = unsigned(word@);
    assert(body == word@.skip(start as int));
    if start == word.len() {
        assert(body.take(0) == Seq::<u8>::empty());
        return Err(NumberFault::InvalidDigit);
    }
    let mut value: u64 = 0;
    let mut i: usize = start;
    assert(body.take(0) == Seq::<u8>::empty());
    while i < word.len()
        invariant
            start <= i <= word.len(),
            start < word.len(),
            body == unsigned(word@),
            body == word@.skip(start as int),
            forall|j: int| 0 <= j < i - start ==> is_digit(body[j]),
            value == digits_value(body.take(i - start)),
            value <= u32::MAX,
        decreases word.len() - i,
    {
        let b = word[i];
        assert(body[i - start] == b);
        if b < 48 || b > 57 {
            proof {
                lemma_digit_run(body, i - start);
            }
            return Err(NumberFault::InvalidDigit);
        }
        proof {
            assert(body.take(i + 1 - start).drop_last() == body.take(i - start));
            assert(body.take(i + 1 - start).last() == b);
        }
        value = value * 10 + (b - 48) as u64;
        if value > 0xffff_ffff {
            proof {
                lemma_digit_run_at_least(body, i + 1 - start);
                lemma_digit_run_bound(body);
                lemma_value_grows(body, i + 1 - start, digit_run(body) as int);
            }
            return Err(NumberFault::TooLarge);
        }
        i += 1;
    }
    proof {
        lemma_digit_run(body, body.len() as int);
        assert(body.take(body.len() as int) == body);
    }
    Ok(value as u32)
}

/// `words[at]` is the first word that is not a number.
pub open spec fn first_bad_word(words: Seq<Seq<u8>>, at: int) -> bool {
    &&& 0 <= at < words.len()
    &&& number_of(words[at]) is Err
    &&& forall|j: int| 0 <= j < at ==> number_of(words[j]) is Ok
}

/// The numbers of line `i`: an error if the text has no such line or one
/// of its words is not a number; the error names the first such word.
pub open spec fn row_of(lines: Seq<Seq<u8>>, i: int) -> Result<Seq<u32>, ParseError> {
    if i >= lines.len() {
        Err(ParseError::Incomplete)
    } else {
        let words = words_of(lines[i]);
        if forall|j: int| 0 <= j < words.len() ==> number_of(words[j]) is Ok {
            Ok(words.map_values(|w: Seq<u8>| number_of(w)->Ok_0))
        } else {
            let at = choose|at: int| first_bad_word(words, at);
            Err(
                ParseError::InvalidNumber {
                    line: i as u64,
                    word: at as usize,
                    fault: number_of(words[at])->Err_0,
                },
            )
        }
    }
}

/// The three numbers of line `i`: an error if those of `row_of`, or if
/// the line does not hold three numbers.
pub open spec fn triple_of(lines: Seq<Seq<u8>>, i: int) -> Result<(u32, u32, u32), ParseError> {
    match row_of(lines, i) {
        Err(e) => Err(e),
        Ok(row) => if row.len() != 3 {
            Err(ParseError::InvalidFormat { line: i as u64 })
        } else {
            Ok((row[0], row[1], row[2]))
        },
    }
}

/// The numbers of line `i`.
pub fn row(lines: &Vec<Vec<u8>>, i: u64) -> (r: Result<Vec<u32>, ParseError>)
    ensures
        match r {
            Ok(row) => row_of(texts(lines@), i as int) == Ok::<Seq<u32>, ParseError>(row@),
            Err(e) => row_of(texts(lines@), i as int) == Err::<Seq<u32>, ParseError>(e),
        },
{
    if i >= lines.len() as u64 {
        return Err(ParseError::Incomplete);
    }
    let line = &lines[i as usize];
    assert(texts(lines@)[i as int] == line@);
    let words = words(line.as_slice());
    let ghost all = words_of(line@);
    let mut row: Vec<u32> = Vec::new();
    let mut j: usize = 0;
    while j < words.len()
        invariant
            j <= words.len(),
            i < lines.len(),
            all == words_of(texts(lines@)[i as int]),
            texts(words@) == all,
            row.len() == j,
            forall|k: int| 0 <= k < j ==> number_of(all[k]) == Ok::<u32, NumberFault>(row[k]),
        decreases words.len() - j,
    {
        assert(all[j as int] == words[j as int]@);
        match number(words[j].as_slice()) {
            Ok(value) => {
                row.push(value);
            },
            Err(fault) => {
                assert(first_bad_word(all, j as int));
                return Err(ParseError::InvalidNumber { line: i, word: j, fault });
            },
        }
        j += 1;
    }
    assert(row@ == all.map_values(|w: Seq<u8>| number_of(w)->Ok_0));
    Ok(row)
}

/// The three numbers of line `i`.
pub fn triple(lines: &Vec<Vec<u8>>, i: u64) -> (r: Result<(u32, u32, u32), ParseError>)
    ensures
        r == triple_of(texts(lines@), i as int),
{
    match row(lines, i) {
        Err(e) => Err(e),
        Ok(row) => {
            if row.len() != 3 {
                Err(ParseError::InvalidFormat { line: i })
            } else {
                Ok((row[0], row[1], row[2]))
            }
        },
    }
}

/// What is wrong with the two lines of library `l`, if anything: with its
/// three numbers, with the identifiers of its books, or with a book that
/// is none of the `books` books of the task.
pub open spec fn library_fault(lines: Seq<Seq<u8>>, books: nat, l: int) -> Option<ParseError> {
    match triple_of(lines, 2 + 2 * l) {
        Err(e) => Some(e),
        Ok(_) => match row_of(lines, 3 + 2 * l) {
            Err(e) => Some(e),
            Ok(ids) => match unknown_book(ids, books) {
                Some(book) => Some(ParseError::InvalidBookId { book, library: l as u32 }),
                None => None,
            },
        },
    }
}

/// Library `l` is the first of the `count` libraries with a fault.
pub open spec fn first_library_fault(lines: Seq<Seq<u8>>, books: nat, count: int, l: int) -> bool {
    &&& 0 <= l < count
    &&& library_fault(lines, books, l) is Some
    &&& forall|j: int| 0 <= j < l ==> library_fault(lines, books, j) is None
}

/// What is wrong with a text, if anything: the first fault met when the
/// lines are read in order.
pub open spec fn fault_of(text: Seq<u8>) -> Option<ParseError> {
    let lines = lines_of(text);
    match triple_of(lines, 0) {
        Err(e) => Some(e),
        Ok(header) => match row_of(lines, 1) {
            Err(e) => Some(e),
            Ok(scores) => if scores.len() > MAX_ENTRIES {
                Some(ParseError::InvalidFormat { line: 1 })
            } else if forall|l: int|
                0 <= l < header.1 ==> library_fault(lines, scores.len(), l) is None {
                None
            } else {
                library_fault(
                    lines,
                    scores.len(),
                    choose|l: int| first_library_fault(lines, scores.len(), header.1 as int, l),
                )
            },
        },
    }
}

/// The library is the one that the two lines of library `l` describe: its
/// sign-up days and books per day are the second and third number of the
/// first line, and its books are those of the second.
pub open spec fn library_as_written(library: Library, lines: Seq<Seq<u8>>, l: int) -> bool {
    let numbers = triple_of(lines, 2 + 2 * l)->Ok_0;
    let ids = row_of(lines, 3 + 2 * l)->Ok_0;
    &&& library.signup_days == numbers.1
    &&& library.scan_rate == numbers.2
    &&& forall|id: int|
        holds_id(library.books@, id) <==> exists|k: int|
            0 <= k < ids.len() && #[trigger] ids[k] == id
}

/// `task` is the task that a text without fault describes: the days and
/// the number of libraries of the first line, the scores of the second,
/// and for each library the sign-up days, the books per day and the books
/// of its two lines. The number of books on the first line and those on
/// the libraries' lines say nothing: the books are those that are listed.
pub open spec fn reads(task: ScanningTask, text: Seq<u8>) -> bool {
    let lines = lines_of(text);
    let header = triple_of(lines, 0)->Ok_0;
    let scores = row_of(lines, 1)->Ok_0;
    &&& task.wf()
    &&& task.days == header.2
    &&& task.books@.len() == scores.len()
    &&& forall|i: int| 0 <= i < scores.len() ==> (#[trigger] task.books@[i]).score == scores[i]
    &&& task.libraries@.len() == header.1
    &&& forall|l: int|
        0 <= l < header.1 ==> library_as_written(#[trigger] task.libraries@[l], lines, l)
}

/// Reads the two lines of the next library and adds the library to the
/// task. Fails with the fault of the two lines, if they have one, and
/// leaves the task as it is.
fn read_library(lines: &Vec<Vec<u8>>, task: &mut ScanningTask) -> (r: Result<(), ParseError>)
    requires
        old(task).wf(),
        old(task).libraries.len() < MAX_ENTRIES,
    ensures
        final(task).days == old(task).days,
        final(task).books == old(task).books,
        match r {
            Ok(_) => {
                &&& library_fault(
                    texts(lines@),
                    old(task).books@.len(),
                    old(task).libraries@.len() as int,
                ) is None
                &&& final(task).wf()
                &&& final(task).libraries@.len() == old(task).libraries@.len() + 1
                &&& final(task).libraries@.drop_last() == old(task).libraries@
                &&& library_as_written(
                    final(task).libraries@.last(),
                    texts(lines@),
                    old(task).libraries@.len() as int,
                )
            },
            Err(e) => {
                &&& library_fault(
                    texts(lines@),
                    old(task).books@.len(),
                    old(task).libraries@.len() as int,
                ) == Some(e)
                &&& final(task).libraries == old(task).libraries
            },
        },
{
    let at: u64 = 2 + 2 * (task.libraries.len() as u64);
    let (signup_days, scan_rate) = match triple(lines, at) {
        Ok(numbers) => (numbers.1, numbers.2),
        Err(e) => {
            return Err(e);
        },
    };
    let ids = match row(lines, at + 1) {
        Ok(ids) => ids,
        Err(e) => {
            return Err(e);
        },
    };
    let ghost listed = ids@;
    match task.add_library(signup_days as u64, scan_rate as u64, ids) {
        Ok(_) => {
            assert(unknown_book(listed, old(task).books@.len()) is None);
            Ok(())
        },
        Err(TaskError::InvalidBookId { book, library }) => {
            proof {
                let found = choose|found: int|
                    first_unknown(listed, old(task).books@.len(), found) && book == listed[found];
                assert(first_unknown(listed, old(task).books@.len(), found));
            }
            Err(ParseError::InvalidBookId { book, library })
        },
    }
}

/// Reads a task from a text. Fails with the first fault of the text, if
/// it has one.
pub fn read_task(text: &[u8]) -> (r: Result<ScanningTask, ParseError>)
    ensures
        match r {
            Ok(task) => fault_of(text@) is None && reads(task, text@),
            Err(e) => fault_of(text@) == Some(e),
        },
{
    let lines = lines(text);
    let ghost all = texts(lines@);
    let (count, days) = match triple(&lines, 0) {
        Ok(header) => (header.1, header.2),
        Err(e) => {
            return Err(e);
        },
    };
    let scores = match row(&lines, 1) {
        Ok(scores) => scores,
        Err(e) => {
            return Err(e);
        },
    };
    if scores.len() > MAX_ENTRIES {
        return Err(ParseError::InvalidFormat { line: 1 });
    }
    let ghost values = scores@;
    let mut task = ScanningTask::new(days as u64, count as usize, scores);
    let ghost books = task.books;
    let mut l: u32 = 0;
    while l < count
        invariant
            l <= count,
            all == texts(lines@),
            all == lines_of(text@),
            triple_of(all, 0) is Ok,
            triple_of(all, 0)->Ok_0.1 == count,
            triple_of(all, 0)->Ok_0.2 == days,
            row_of(all, 1) == Ok::<Seq<u32>, ParseError>(values),
            values.len() <= MAX_ENTRIES,
            task.wf(),
            task.days == days,
            task.books == books,
            books@.len() == values.len(),
            forall|i: int| 0 <= i < values.len() ==> (#[trigger] books@[i]).score == values[i],
            task.libraries@.len() == l,
            forall|j: int| 0 <= j < l ==> library_fault(all, values.len(), j) is None,
            forall|j: int| 0 <= j < l ==> library_as_written(#[trigger] task.libraries@[j], all, j),
        decreases count - l,
    {
        let ghost before = task.libraries@;
        match read_library(&lines, &mut task) {
            Ok(_) => {},
            Err(e) => {
                assert(first_library_fault(all, values.len(), count as int, l as int));
                return Err(e);
            },
        }
        proof {
            assert forall|j: int| 0 <= j < l + 1 implies library_as_written(
                #[trigger] task.libraries@[j],
                all,
                j,
            ) by {
                if j < l {
                    assert(task.libraries@[j] == before[j]);
                } else {
                    assert(task.libraries@[j] == task.libraries@.last());
                }
            }
        }
        l += 1;
    }
    Ok(task)
}

impl std::str::FromStr for ScanningTask {
    type Err = ParseError;

    /// Reads a task from a text, as `read_task` does from its bytes.
    fn from_str(text: &str) -> (r: Result<Self, ParseError>)
        ensures
            match r {
                Ok(task) => fault_of(text.spec_bytes()) is None && reads(task, text.spec_bytes()),
                Err(e) => fault_of(text.spec_bytes()) == Some(e),
            },
    {
        read_task(text.as_bytes())
    }
}

} // verus!
