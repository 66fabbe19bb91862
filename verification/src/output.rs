//! Writing a plan as text: the number of libraries that sign up; then two
//! lines for each of them, in the order of their sign-ups: its identifier
//! and the number of its books, and the identifiers of the books.

use crate::input::{digits_value, is_digit, lemma_digit_run, number_of, unsigned, NumberFault};
use crate::plan::{ScanningPlan, Signup};
use vstd::prelude::*;

verus! {

/// The digits of a number in base ten, without leading zeros.
pub open spec fn decimal(n: nat) -> Seq<u8>
    decreases n,
{
    if n < 10 {
        seq![(48 + n) as u8]
    } else {
        decimal(n / 10).push((48 + n % 10) as u8)
    }
}

/// The numbers in base ten, with one space between each two.
pub open spec fn spaced(numbers: Seq<u32>) -> Seq<u8>
    decreases numbers.len(),
{
    if numbers.len() == 0 {
        Seq::<u8>::empty()
    } else if numbers.len() == 1 {
        decimal(numbers[0] as nat)
    } else {
        spaced(numbers.drop_last()) + seq![32u8] + decimal(numbers.last() as nat)
    }
}

/// The two lines of an entry.
pub open spec fn entry_text(entry: Signup) -> Seq<u8> {
    decimal(entry.library as nat) + seq![32u8] + decimal(entry.books@.len()) + seq![10u8] + spaced(
        entry.books@,
    ) + seq![10u8]
}

/// The lines of the first `k` entries.
pub open spec fn entries_text(queue: Seq<Signup>, k: int) -> Seq<u8>
    decreases k,
{
    if k <= 0 || k > queue.len() {
        Seq::<u8>::empty()
    } else {
        entries_text(queue, k - 1) + entry_text(queue[k - 1])
    }
}

/// The text of a plan.
pub open spec fn plan_text(queue: Seq<Signup>) -> Seq<u8> {
    decimal(queue.len()) + seq![10u8] + entries_text(queue, queue.len() as int)
}

/// The digits of a number are digits, and stand for the number.
pub proof fn lemma_decimal_value(n: nat)
    ensures
        decimal(n).len() > 0,
        forall|i: int| 0 <= i < decimal(n).len() ==> is_digit(#[trigger] decimal(n)[i]),
        digits_value(decimal(n)) == n,
    decreases n,
{
    if n < 10 {
        assert(decimal(n).drop_last() == Seq::<u8>::empty());
        assert(digits_value(decimal(n).drop_last()) == 0);
    } else {
        lemma_decimal_value(n / 10);
        assert(decimal(n).drop_last() == decimal(n / 10));
    }
}

/// What is written for a number is read back as that number.
pub proof fn lemma_decimal_reads_back(n: u32)
    ensures
        number_of(decimal(n as nat)) == Ok::<u32, NumberFault>(n),
{
    let text = decimal(n as nat);
    lemma_decimal_value(n as nat);
    assert(is_digit(text[0]));
    assert(unsigned(text) == text);
    lemma_digit_run(text, text.len() as int);
    assert(text.take(text.len() as int) == text);
}

/// Appends the digits of `n`.
pub fn push_decimal(out: &mut Vec<u8>, n: u64)
    ensures
        final(out)@ == old(out)@ + decimal(n as nat),
    decreases n,
{
    if n >= 10 {
        push_decimal(out, n / 10);
    }
    out.push(48 + (n % 10) as u8);
    assert(out@ == old(out)@ + decimal(n as nat));
}

impl<'a> ScanningPlan<'a> {
    /// The plan as text.
    pub fn render(&self) -> (text: Vec<u8>)
        ensures
            text@ == plan_text(self.queue@),
    {
        let mut text: Vec<u8> = Vec::new();
        push_decimal(&mut text, self.queue.len() as u64);
        text.push(10);
        let ghost head = text@;
        let mut k: usize = 0;
        while k < self.queue.len()
            invariant
                k <= self.queue.len(),
                head == decimal(self.queue@.len()) + seq![10u8],
                text@ == head + entries_text(self.queue@, k as int),
            decreases self.queue.len() - k,
        {
            let entry = &self.queue[k];
            let ghost before = text@;
            push_decimal(&mut text, entry.library as u64);
            text.push(32);
            push_decimal(&mut text, entry.books.len() as u64);
            text.push(10);
            let ghost first_line = text@;
            let mut i: usize = 0;
            while i < entry.books.len()
                invariant
                    i <= entry.books.len(),
                    text@ == first_line + spaced(entry.books@.take(i as int)),
                decreases entry.books.len() - i,
            {
                if i > 0 {
                    text.push(32);
                }
                push_decimal(&mut text, entry.books[i] as u64);
                proof {
                    let next = entry.books@.take(i + 1);
                    assert(next.drop_last() == entry.books@.take(i as int));
                    assert(next.last() == entry.books[i as int]);
                    assert(text@ == first_line + spaced(next));
                }
                i += 1;
            }
            text.push(10);
            proof {
                assert(entry.books@.take(i as int) == entry.books@);
                assert(text@ == before + entry_text(*entry));
                assert(text@ == head + entries_text(self.queue@, k + 1));
            }
            k += 1;
        }
        text
    }
}

} // verus!
