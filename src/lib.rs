//! Tools for sponsorship bookkeeping: merging overlapping CSV exports into one
//! key-unique, sorted table, and pairing ledger rows with the payment rows that settled
//! them.
use vstd::prelude::*;

pub mod bytes;
pub mod record;
pub mod column;
pub mod csv_io;
pub mod dates;
pub mod merge;
pub mod merge_accounts;
pub mod reconcile;
pub mod sle;

pub use merge::merge;
pub use merge_accounts::merge_accounts;

verus! {

/// Whether a byte is one of the two separators that number normalization rewrites.
pub open spec fn is_separator(b: u8) -> bool {
    b == 0x2e || b == 0x2c
}

/// A number has a fractional part when the third byte from its end is a separator.
pub open spec fn has_fraction(n: Seq<u8>) -> bool {
    n.len() >= 3 && is_separator(n[n.len() - 3])
}

/// The byte at index `i` of `n` once its separators are rewritten.
///
/// Counting positions from the end (`r`), the decimal separator sits at `r == 2`.
/// Thousands separators sit every four positions further left: at `r = 6, 10, ...`
/// after a fractional part, and at `r = 3, 7, ...` without one.
pub open spec fn normalized_byte(n: Seq<u8>, i: int, thousands: u8, decimal: u8) -> u8 {
    let r = n.len() - 1 - i;
    if has_fraction(n) {
        if r == 2 {
            decimal
        } else if r >= 6 && r % 4 == 2 && is_separator(n[i]) {
            thousands
        } else {
            n[i]
        }
    } else if r >= 3 && r % 4 == 3 && is_separator(n[i]) {
        thousands
    } else {
        n[i]
    }
}

pub open spec fn normalized(n: Seq<u8>, thousands: u8, decimal: u8) -> Seq<u8> {
    Seq::new(n.len(), |i: int| normalized_byte(n, i, thousands, decimal))
}

/// Rewrite the thousands and decimal separators of a number as found in exported
/// CSV files, such as `1,000.00` or `1.000,00`.
///
/// Each separator must fit in a single byte.
pub fn normalize_number(number: &[u8], thousands_separator: char, decimal_separator: char) -> (r:
    Vec<u8>)
    requires
        (thousands_separator as u32) < 256,
        (decimal_separator as u32) < 256,
    ensures
        r@ == normalized(number@, thousands_separator as u8, decimal_separator as u8),
{
    let thousands = thousands_separator as u32 as u8;
    let decimal = decimal_separator as u32 as u8;
    let len = number.len();
    let fraction = len >= 3 && (number[len - 3] == 0x2e || number[len - 3] == 0x2c);
    let mut out: Vec<u8> = Vec::with_capacity(len);
    let mut i: usize = 0;
    while i < len
        invariant
            len == number@.len(),
            i <= len,
            fraction == has_fraction(number@),
            thousands == thousands_separator as u8,
            decimal == decimal_separator as u8,
            out@.len() == i,
            forall|j: int| 0 <= j < i ==> out@[j] == normalized_byte(number@, j, thousands, decimal),
        decreases len - i,
    {
        let b = number[i];
        let r = len - 1 - i;
        let sep = b == 0x2e || b == 0x2c;
        let nb = if fraction {
            if r == 2 {
                decimal
            } else if r >= 6 && r % 4 == 2 && sep {
                thousands
            } else {
                b
            }
        } else if r >= 3 && r % 4 == 3 && sep {
            thousands
        } else {
            b
        };
        out.push(nb);
        i = i + 1;
    }
    assert(out@ =~= normalized(number@, thousands, decimal));
    out
}

} // verus!
