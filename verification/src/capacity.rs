//! How many books a library can scan in the days it has, and how many of
//! those days it would stand idle.

use vstd::prelude::*;

verus! {

/// The number of books that a library scanning `rate` books a day can scan
/// in `days` days.
pub open spec fn scan_capacity(days: nat, rate: nat) -> nat {
    days * rate
}

/// The days it takes to scan `books` books at `rate` books a day: the
/// quotient, rounded up. Zero where the rate is zero.
pub open spec fn scan_days(books: nat, rate: nat) -> nat {
    if rate == 0 {
        0
    } else if books % rate == 0 {
        books / rate
    } else {
        books / rate + 1
    }
}

/// The days, out of `days`, that are left over once `books` books have been
/// scanned at `rate` books a day. Zero unless the library could scan more
/// books than it has.
pub open spec fn idle_days(days: nat, rate: nat, books: nat) -> nat {
    if scan_capacity(days, rate) > books && days > scan_days(books, rate) {
        (days - scan_days(books, rate)) as nat
    } else {
        0
    }
}

/// A library that could scan more books than it has needs no more days for
/// them than it has.
pub proof fn lemma_scan_days_within(days: nat, rate: nat, books: nat)
    requires
        scan_capacity(days, rate) > books,
    ensures
        scan_days(books, rate) <= days,
{
    if rate > 0 {
        let q = books / rate;
        let r = books % rate;
        assert(books == rate * q + r && 0 <= r < rate) by {
            vstd::arithmetic::div_mod::lemma_fundamental_div_mod(books as int, rate as int);
            vstd::arithmetic::div_mod::lemma_mod_bound(books as int, rate as int);
        }
        assert(0 <= q) by {
            vstd::arithmetic::div_mod::lemma_div_pos_is_pos(books as int, rate as int);
        }
        if r == 0 {
            assert(q <= days) by (nonlinear_arith)
                requires
                    days * rate > rate * q,
                    rate > 0,
                    q >= 0,
            ;
        } else {
            assert(q + 1 <= days) by (nonlinear_arith)
                requires
                    days * rate > rate * q + r,
                    r > 0,
                    rate > 0,
                    q >= 0,
            ;
        }
    }
}

/// The scan capacity as a machine number; the product of two `u64` always
/// fits.
pub fn capacity(days: u64, rate: u64) -> (books: u128)
    ensures
        books == scan_capacity(days as nat, rate as nat),
{
    assert(days * rate <= 0xffff_ffff_ffff_ffff * 0xffff_ffff_ffff_ffff) by (nonlinear_arith)
        requires
            0 <= days <= 0xffff_ffff_ffff_ffff,
            0 <= rate <= 0xffff_ffff_ffff_ffff,
    ;
    days as u128 * rate as u128
}

/// The idle days as a machine number.
pub fn unused_days(days: u64, rate: u64, books: usize) -> (idle: u64)
    ensures
        idle == idle_days(days as nat, rate as nat, books as nat),
{
    if capacity(days, rate) > books as u128 {
        assert(rate > 0) by (nonlinear_arith)
            requires
                days * rate > books,
                books >= 0,
                days >= 0,
                rate >= 0,
        ;
        let books = books as u64;
        let need = if books % rate == 0 {
            books / rate
        } else {
            proof {
                lemma_scan_days_within(days as nat, rate as nat, books as nat);
            }
            books / rate + 1
        };
        if days > need {
            days - need
        } else {
            0
        }
    } else {
        0
    }
}

} // verus!
