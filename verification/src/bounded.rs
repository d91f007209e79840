//! A validated non-negative integer restricted to the range that every
//! consumer can represent without precision loss, together with its plain
//! decimal text form.

use vstd::prelude::*;

use crate::errors::RangeError;
use crate::text::chars_to_string;

verus! {

/// Largest integer exactly representable by every consumer of the wire form.
pub const MAX_SAFE_INTEGER: u64 = 9007199254740991;

/// The character for a single decimal digit.
pub open spec fn digit_char(d: nat) -> char {
    if d == 0 {
        '0'
    } else if d == 1 {
        '1'
    } else if d == 2 {
        '2'
    } else if d == 3 {
        '3'
    } else if d == 4 {
        '4'
    } else if d == 5 {
        '5'
    } else if d == 6 {
        '6'
    } else if d == 7 {
        '7'
    } else if d == 8 {
        '8'
    } else {
        '9'
    }
}

/// The plain decimal rendering of a non-negative integer: no sign, no leading
/// zeros (zero itself renders as the single character `0`).
pub open spec fn dec_str(n: nat) -> Seq<char>
    decreases n,
{
    if n < 10 {
        seq![digit_char(n)]
    } else {
        dec_str(n / 10) + seq![digit_char(n % 10)]
    }
}

/// A non-negative integer whose value lies in `[0, MAX_SAFE_INTEGER]`.
/// Constructed once, immutable thereafter.
#[derive(Debug, Clone, Copy, PartialEq, Eq, Structural)]
pub struct BoundedInteger {
    value: u64,
}

impl BoundedInteger {
    /// The wrapped value.
    pub closed spec fn spec_value(&self) -> u64 {
        self.value
    }

    /// The range invariant every constructed value satisfies.
    pub open spec fn well_formed(&self) -> bool {
        self.spec_value() <= MAX_SAFE_INTEGER
    }

    /// Constructs from an unsigned value; fails with a `RangeError` exactly
    /// when the value exceeds the maximum safely representable integer.
    pub fn new(value: u64) -> (r: Result<BoundedInteger, RangeError>)
        ensures
            value <= MAX_SAFE_INTEGER ==> (r matches Ok(b) && b.spec_value() == value),
            value > MAX_SAFE_INTEGER ==> r is Err,
    {
        if value <= MAX_SAFE_INTEGER {
            Ok(BoundedInteger { value })
        } else {
            Err(RangeError {})
        }
    }

    /// Constructs from a signed value; fails with a `RangeError` exactly when
    /// the value is negative or exceeds the maximum safely representable
    /// integer.
    pub fn from_signed(value: i64) -> (r: Result<BoundedInteger, RangeError>)
        ensures
            0 <= value <= MAX_SAFE_INTEGER ==> (r matches Ok(b) && b.spec_value() == value),
            !(0 <= value <= MAX_SAFE_INTEGER) ==> r is Err,
    {
        if value >= 0 {
            Self::new(value as u64)
        } else {
            Err(RangeError {})
        }
    }

    /// The smallest bounded integer: zero.
    pub fn min_value() -> (r: BoundedInteger)
        ensures
            r.spec_value() == 0,
    {
        BoundedInteger { value: 0 }
    }

    /// The wrapped value.
    pub fn get(&self) -> (r: u64)
        ensures
            r == self.spec_value(),
    {
        self.value
    }

    /// Renders the value as a plain decimal string: no sign, no leading
    /// zeros.
    pub fn to_decimal_string(&self) -> (r: String)
        ensures
            r@ == dec_str(self.spec_value() as nat),
    {
        let mut digits: Vec<char> = Vec::new();
        push_decimal(self.value, &mut digits);
        chars_to_string(&digits)
    }
}

/// One decimal digit as a character.
fn digit_of(d: u64) -> (c: char)
    requires
        d < 10,
    ensures
        c == digit_char(d as nat),
{
    if d == 0 {
        '0'
    } else if d == 1 {
        '1'
    } else if d == 2 {
        '2'
    } else if d == 3 {
        '3'
    } else if d == 4 {
        '4'
    } else if d == 5 {
        '5'
    } else if d == 6 {
        '6'
    } else if d == 7 {
        '7'
    } else if d == 8 {
        '8'
    } else {
        '9'
    }
}

/// Appends the decimal rendering of `n` to `out`.
fn push_decimal(n: u64, out: &mut Vec<char>)
    ensures
        final(out)@ == old(out)@ + dec_str(n as nat),
    decreases n,
{
    if n < 10 {
        let c = digit_of(n);
        out.push(c);
        proof {
            assert(out@ =~= old(out)@ + dec_str(n as nat));
        }
    } else {
        push_decimal(n / 10, out);
        let c = digit_of(n % 10);
        out.push(c);
        proof {
            assert(out@ =~= old(out)@ + dec_str(n as nat));
        }
    }
}

} // verus!
