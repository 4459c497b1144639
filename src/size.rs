//! A byte count with saturating subtraction and unit formatting.

use vstd::prelude::*;

verus! {

/// The unit system used when a size is displayed.
#[derive(Debug, Clone, Copy, PartialEq, Eq, Structural)]
pub enum SizeDisplayFormat {
    /// 1 KB = 1000 bytes.
    Metric,
    /// 1 KiB = 1024 bytes.
    Binary,
}

/// A divisor and the unit name that goes with it.
#[derive(Debug, Clone, Copy, PartialEq, Eq)]
pub struct SizeDisplayData {
    /// The number of bytes in one unit.
    pub divisor: u64,
    /// The unit name.
    pub unit: &'static str,
}

/// The number of bytes in one unit of the given rank: rank 0 is the byte,
/// rank 1 the kilo unit, rank 2 the mega unit and rank 3 the giga unit.
pub open spec fn unit_divisor(format: SizeDisplayFormat, rank: nat) -> nat {
    if rank == 0 {
        1
    } else {
        match format {
            SizeDisplayFormat::Metric => if rank == 1 {
                1000
            } else if rank == 2 {
                1000000
            } else {
                1000000000
            },
            SizeDisplayFormat::Binary => if rank == 1 {
                1024
            } else if rank == 2 {
                1048576
            } else {
                1073741824
            },
        }
    }
}

/// The name of the unit of the given rank.
pub open spec fn unit_name(format: SizeDisplayFormat, rank: nat) -> Seq<char> {
    if rank == 0 {
        seq!['B']
    } else {
        match format {
            SizeDisplayFormat::Metric => if rank == 1 {
                seq!['K', 'B']
            } else if rank == 2 {
                seq!['M', 'B']
            } else {
                seq!['G', 'B']
            },
            SizeDisplayFormat::Binary => if rank == 1 {
                seq!['K', 'i', 'B']
            } else if rank == 2 {
                seq!['M', 'i', 'B']
            } else {
                seq!['G', 'i', 'B']
            },
        }
    }
}

/// The largest unit whose divisor is strictly below the byte count, or the
/// byte when there is none.
pub open spec fn best_rank(bytes: nat, format: SizeDisplayFormat) -> nat {
    if bytes > unit_divisor(format, 3) {
        3
    } else if bytes > unit_divisor(format, 2) {
        2
    } else if bytes > unit_divisor(format, 1) {
        1
    } else {
        0
    }
}

/// The character of a decimal digit.
pub open spec fn digit_char(d: nat) -> char {
    if d == 0 { '0' }
    else if d == 1 { '1' }
    else if d == 2 { '2' }
    else if d == 3 { '3' }
    else if d == 4 { '4' }
    else if d == 5 { '5' }
    else if d == 6 { '6' }
    else if d == 7 { '7' }
    else if d == 8 { '8' }
    else { '9' }
}

/// The decimal digits of a natural number, without leading zeros.
pub open spec fn decimal(n: nat) -> Seq<char>
    decreases n,
{
    if n < 10 {
        seq![digit_char(n)]
    } else {
        decimal(n / 10) + seq![digit_char(n % 10)]
    }
}

/// The text shown for a byte count: the floor of the count divided by the
/// chosen unit's divisor, a space, and the unit's name.
pub open spec fn formatted_size(bytes: nat, format: SizeDisplayFormat) -> Seq<char> {
    let rank = best_rank(bytes, format);
    decimal(bytes / unit_divisor(format, rank)) + seq![' '] + unit_name(format, rank)
}

/// A number of bytes; never negative.
#[derive(Clone, Copy, Debug, PartialEq, Eq, Structural, PartialOrd, Ord, Hash)]
pub struct Size {
    value: u64,
}

impl View for Size {
    type V = u64;

    closed spec fn view(&self) -> u64 {
        self.value
    }
}

impl Default for Size {
    fn default() -> (r: Size)
        ensures
            r@ == 0,
    {
        Size { value: 0 }
    }
}

impl Size {
    /// Two sizes are equal exactly when their byte counts are.
    pub proof fn lemma_eq_iff_view_eq(a: Size, b: Size)
        ensures
            (a == b) <==> (a@ == b@),
    {
    }

    /// Creates a size of the given number of bytes.
    pub fn new(value: u64) -> (r: Size)
        ensures
            r@ == value,
    {
        Size { value }
    }

    /// Subtracts the given number of bytes, stopping at zero.
    pub fn subtract(&mut self, value: u64)
        ensures
            final(self)@ == if value <= old(self)@ { (old(self)@ - value) as u64 } else { 0u64 },
    {
        if value <= self.value {
            self.value = self.value - value;
        } else {
            self.value = 0;
        }
    }

    /// The number of bytes.
    pub fn get_value(&self) -> (r: u64)
        ensures
            r == self@,
    {
        self.value
    }

    /// The size as text in the given unit system, e.g. `1 MiB` or `180 KB`.
    pub fn to_string(&self, format: SizeDisplayFormat) -> (r: String)
        ensures
            r@ == formatted_size(self@ as nat, format),
    {
        let best = Self::get_best_format(self.value, format);
        let mut text = decimal_string(self.value / best.divisor);
        text.append(" ");
        text.append(best.unit);
        proof {
            reveal_strlit(" ");
        }
        text
    }

    /// The unit that a byte count is displayed in.
    pub fn get_best_format(size_in_bytes: u64, format: SizeDisplayFormat) -> (r: SizeDisplayData)
        ensures
            r.divisor == unit_divisor(format, best_rank(size_in_bytes as nat, format)),
            r.unit@ == unit_name(format, best_rank(size_in_bytes as nat, format)),
    {
        proof {
            reveal_strlit("GiB");
            reveal_strlit("MiB");
            reveal_strlit("KiB");
            reveal_strlit("GB");
            reveal_strlit("MB");
            reveal_strlit("KB");
            reveal_strlit("B");
        }
        let byte = SizeDisplayData { divisor: 1, unit: "B" };
        let (giga, mega, kilo) = match format {
            SizeDisplayFormat::Binary => (
                SizeDisplayData { divisor: 1073741824, unit: "GiB" },
                SizeDisplayData { divisor: 1048576, unit: "MiB" },
                SizeDisplayData { divisor: 1024, unit: "KiB" },
            ),
            SizeDisplayFormat::Metric => (
                SizeDisplayData { divisor: 1000000000, unit: "GB" },
                SizeDisplayData { divisor: 1000000, unit: "MB" },
                SizeDisplayData { divisor: 1000, unit: "KB" },
            ),
        };
        if size_in_bytes > giga.divisor {
            giga
        } else if size_in_bytes > mega.divisor {
            mega
        } else if size_in_bytes > kilo.divisor {
            kilo
        } else {
            byte
        }
    }
}

/// The decimal text of a number.
fn decimal_string(n: u64) -> (r: String)
    ensures
        r@ == decimal(n as nat),
    decreases n,
{
    if n < 10 {
        digit_string(n)
    } else {
        let mut head = decimal_string(n / 10);
        let tail = digit_string(n % 10);
        head.append(tail.as_str());
        head
    }
}

/// The one-character text of a decimal digit.
fn digit_string(d: u64) -> (r: String)
    requires
        d < 10,
    ensures
        r@ == seq![digit_char(d as nat)],
{
    let s: &str = if d == 0 { "0" }
        else if d == 1 { "1" }
        else if d == 2 { "2" }
        else if d == 3 { "3" }
        else if d == 4 { "4" }
        else if d == 5 { "5" }
        else if d == 6 { "6" }
        else if d == 7 { "7" }
        else if d == 8 { "8" }
        else { "9" };
    proof {
        reveal_strlit("0");
        reveal_strlit("1");
        reveal_strlit("2");
        reveal_strlit("3");
        reveal_strlit("4");
        reveal_strlit("5");
        reveal_strlit("6");
        reveal_strlit("7");
        reveal_strlit("8");
        reveal_strlit("9");
    }
    let r = String::from_str(s);
    assert(r@ =~= seq![digit_char(d as nat)]);
    r
}

} // verus!
