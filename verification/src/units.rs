//! Readable units for a byte count: bytes, KB, MB, GB and TB, by powers of 1024.

use vstd::prelude::*;
use vstd::string::StringExecFns;

verus! {

/// Bytes in a kilobyte.
pub const KILOBYTE: u64 = 1024;

/// Bytes in a megabyte.
pub const MEGABYTE: u64 = 1048576;

/// Bytes in a gigabyte.
pub const GIGABYTE: u64 = 1073741824;

/// Bytes in a terabyte.
pub const TERABYTE: u64 = 1099511627776;

/// The unit a size is displayed in.
#[derive(Clone, Copy, Debug, PartialEq, Eq, Structural)]
pub enum SizeUnit {
    B,
    KB,
    MB,
    GB,
    TB,
}

impl SizeUnit {
    /// The number of bytes that make one of this unit.
    pub open spec fn spec_divisor(self) -> nat {
        match self {
            SizeUnit::B => 1,
            SizeUnit::KB => 1024,
            SizeUnit::MB => 1024 * 1024,
            SizeUnit::GB => 1024 * 1024 * 1024,
            SizeUnit::TB => 1024 * 1024 * 1024 * 1024,
        }
    }

    /// The letters that follow a size in this unit.
    pub open spec fn spec_abbreviation(self) -> Seq<char> {
        match self {
            SizeUnit::B => seq!['B'],
            SizeUnit::KB => seq!['K', 'B'],
            SizeUnit::MB => seq!['M', 'B'],
            SizeUnit::GB => seq!['G', 'B'],
            SizeUnit::TB => seq!['T', 'B'],
        }
    }

    /// The unit for a byte count: the first whose next power of 1024 lies
    /// above the count, terabytes for all that is left.
    pub open spec fn spec_of(bytes: u64) -> SizeUnit {
        if bytes < 1024 {
            SizeUnit::B
        } else if bytes < 1024 * 1024 {
            SizeUnit::KB
        } else if bytes < 1024 * 1024 * 1024 {
            SizeUnit::MB
        } else if bytes < 1024 * 1024 * 1024 * 1024 {
            SizeUnit::GB
        } else {
            SizeUnit::TB
        }
    }

    /// The number of bytes that make one of this unit.
    pub fn divisor(self) -> (d: u64)
        ensures
            d == self.spec_divisor(),
    {
        match self {
            SizeUnit::B => 1,
            SizeUnit::KB => KILOBYTE,
            SizeUnit::MB => MEGABYTE,
            SizeUnit::GB => GIGABYTE,
            SizeUnit::TB => TERABYTE,
        }
    }

    /// The letters that follow a size in this unit.
    pub fn abbreviation(self) -> (s: &'static str)
        ensures
            s@ == self.spec_abbreviation(),
    {
        proof {
            reveal_strlit("B");
            reveal_strlit("KB");
            reveal_strlit("MB");
            reveal_strlit("GB");
            reveal_strlit("TB");
        }
        let s = match self {
            SizeUnit::B => "B",
            SizeUnit::KB => "KB",
            SizeUnit::MB => "MB",
            SizeUnit::GB => "GB",
            SizeUnit::TB => "TB",
        };
        assert(s@ =~= self.spec_abbreviation());
        s
    }

    /// The unit for a byte count.
    pub fn of(bytes: u64) -> (unit: SizeUnit)
        ensures
            unit == SizeUnit::spec_of(bytes),
    {
        if bytes < KILOBYTE {
            SizeUnit::B
        } else if bytes < MEGABYTE {
            SizeUnit::KB
        } else if bytes < GIGABYTE {
            SizeUnit::MB
        } else if bytes < TERABYTE {
            SizeUnit::GB
        } else {
            SizeUnit::TB
        }
    }
}

/// The decimal digit for a number below ten.
pub open spec fn digit_char(d: nat) -> char {
    if d == 0 {
        '0'
    } else if d == 1 {
        '1'
    } else if d == 2 {
        '2'
    } else if d == 3 {
        '3'
    } else if d == 4 {
        '4'
    } else if d == 5 {
        '5'
    } else if d == 6 {
        '6'
    } else if d == 7 {
        '7'
    } else if d == 8 {
        '8'
    } else {
        '9'
    }
}

/// A number in decimal, without leading zeros.
pub open spec fn decimal(n: nat) -> Seq<char>
    decreases n,
{
    if n < 10 {
        seq![digit_char(n)]
    } else {
        decimal(n / 10).push(digit_char(n % 10))
    }
}

/// `bytes / divisor` in hundredths, rounded to the nearest, a tie to the even one.
pub open spec fn hundredths(bytes: nat, divisor: nat) -> nat
    recommends
        divisor > 0,
{
    let scaled = bytes * 100;
    let below = scaled / divisor;
    let rest = scaled % divisor;
    if 2 * rest > divisor || (2 * rest == divisor && below % 2 == 1) {
        below + 1
    } else {
        below
    }
}

/// The unit scales a count into the range from one up to 1024: only a count
/// in bytes may lie below one unit, only one in terabytes at 1024 units or
/// above.
pub proof fn lemma_unit_range(bytes: u64)
    ensures
        SizeUnit::spec_of(bytes) != SizeUnit::B ==> SizeUnit::spec_of(bytes).spec_divisor()
            <= bytes,
        SizeUnit::spec_of(bytes) != SizeUnit::TB ==> bytes < 1024 * SizeUnit::spec_of(
            bytes,
        ).spec_divisor(),
{
}

/// The rounded count of hundredths is off the exact quotient by half a
/// hundredth at most, and a count in bytes is not rounded at all.
pub proof fn lemma_hundredths_nearest(bytes: nat, divisor: nat)
    requires
        divisor > 0,
    ensures
        2 * (hundredths(bytes, divisor) * divisor - bytes * 100) <= divisor,
        2 * (bytes * 100 - hundredths(bytes, divisor) * divisor) <= divisor,
        divisor == 1 ==> hundredths(bytes, divisor) == bytes * 100,
{
    let scaled = (bytes * 100) as int;
    let d = divisor as int;
    let below = scaled / d;
    let rest = scaled % d;
    vstd::arithmetic::div_mod::lemma_fundamental_div_mod(scaled, d);
    assert(scaled == d * below + rest);
    assert(0 <= rest < d);
    assert((below + 1) * d == d * below + d) by (nonlinear_arith);
    assert(below * d == d * below) by (nonlinear_arith);
}

/// A count of hundredths with two decimal places, then the unit's letters.
pub open spec fn rendered(count: nat, unit: SizeUnit) -> Seq<char> {
    decimal(count / 100) + seq!['.', digit_char((count / 10) % 10), digit_char(count % 10)]
        + unit.spec_abbreviation()
}

fn digit_str(d: u128) -> (s: &'static str)
    requires
        d < 10,
    ensures
        s@ == seq![digit_char(d as nat)],
{
    proof {
        reveal_strlit("0");
        reveal_strlit("1");
        reveal_strlit("2");
        reveal_strlit("3");
        reveal_strlit("4");
        reveal_strlit("5");
        reveal_strlit("6");
        reveal_strlit("7");
        reveal_strlit("8");
        reveal_strlit("9");
    }
    let s = if d == 0 {
        "0"
    } else if d == 1 {
        "1"
    } else if d == 2 {
        "2"
    } else if d == 3 {
        "3"
    } else if d == 4 {
        "4"
    } else if d == 5 {
        "5"
    } else if d == 6 {
        "6"
    } else if d == 7 {
        "7"
    } else if d == 8 {
        "8"
    } else {
        "9"
    };
    assert(s@ =~= seq![digit_char(d as nat)]);
    s
}

fn push_decimal(out: &mut String, n: u128)
    ensures
        final(out)@ == old(out)@ + decimal(n as nat),
    decreases n,
{
    if n >= 10 {
        push_decimal(out, n / 10);
    }
    out.append(digit_str(n % 10));
    assert(final(out)@ =~= old(out)@ + decimal(n as nat));
}

/// A byte count with the unit it is displayed in.
///
/// The scaled value is kept exact, as the count and the unit that divides it.
#[derive(Clone, Copy, Debug, PartialEq, Eq, Structural)]
pub struct SizeWithUnit {
    pub bytes: u64,
    pub unit: SizeUnit,
}

impl SizeWithUnit {
    /// The unit is the one that belongs to the count.
    pub open spec fn wf(self) -> bool {
        self.unit == SizeUnit::spec_of(self.bytes)
    }

    /// The scaled value in hundredths of the unit, rounded.
    pub open spec fn spec_hundredths(self) -> nat {
        hundredths(self.bytes as nat, self.unit.spec_divisor())
    }

    /// What `render` returns.
    pub open spec fn spec_render(self) -> Seq<char> {
        rendered(self.spec_hundredths(), self.unit)
    }

    /// A byte count with the unit that belongs to it.
    pub fn new(bytes: u64) -> (out: SizeWithUnit)
        ensures
            out.bytes == bytes,
            out.unit == SizeUnit::spec_of(bytes),
            out.wf(),
    {
        if bytes < KILOBYTE {
            SizeWithUnit { bytes, unit: SizeUnit::B }
        } else if bytes < MEGABYTE {
            SizeWithUnit { bytes, unit: SizeUnit::KB }
        } else if bytes < GIGABYTE {
            SizeWithUnit { bytes, unit: SizeUnit::MB }
        } else if bytes < TERABYTE {
            SizeWithUnit { bytes, unit: SizeUnit::GB }
        } else {
            SizeWithUnit { bytes, unit: SizeUnit::TB }
        }
    }

    /// The scaled value in hundredths of the unit, rounded to the nearest, a
    /// tie to the even one.
    pub fn hundredths(&self) -> (count: u128)
        ensures
            count == self.spec_hundredths(),
    {
        let divisor: u128 = self.unit.divisor() as u128;
        let scaled: u128 = (self.bytes as u128) * 100;
        let below: u128 = scaled / divisor;
        let rest: u128 = scaled % divisor;
        assert(below <= scaled) by (nonlinear_arith)
            requires
                below == scaled / divisor,
                divisor >= 1,
        ;
        if 2 * rest > divisor || (2 * rest == divisor && below % 2 == 1) {
            below + 1
        } else {
            below
        }
    }

    /// The scaled value with two decimal places, then the unit: `3.03KB`.
    pub fn render(&self) -> (out: String)
        ensures
            out@ == self.spec_render(),
    {
        let count: u128 = self.hundredths();
        let mut out = String::new();
        push_decimal(&mut out, count / 100);
        proof {
            reveal_strlit(".");
        }
        out.append(".");
        out.append(digit_str((count / 10) % 10));
        out.append(digit_str(count % 10));
        out.append(self.unit.abbreviation());
        assert(out@ =~= self.spec_render());
        out
    }
}

} // verus!
