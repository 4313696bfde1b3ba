//! Binary size units and the rendering of byte counts.
//!
//! A byte count is shown in exactly one unit, the largest whose threshold it
//! reaches, as a decimal number with two fractional digits followed by the
//! unit's label: `1023.00 B`, `1.00 KB`, `1.50 MB`.
//!
//! The number shown is the quotient of the count by the unit, taken in double
//! precision and rounded to hundredths, ties to even. Everything is computed
//! on integers; the specification functions below say what double precision
//! means for an integer count.

use vstd::prelude::*;

verus! {

/// Bytes in a kibibyte.
pub const KB: u64 = 1024;

/// Bytes in a mebibyte.
pub const MB: u64 = 1024 * KB;

/// Bytes in a gibibyte.
pub const GB: u64 = 1024 * MB;

/// Bytes in a tebibyte.
pub const TB: u64 = 1024 * GB;

/// A unit in which a byte count is displayed. Each unit is 1024 times the
/// one before it.
#[derive(Clone, Copy, Debug, PartialEq, Eq, Structural)]
pub enum SizeUnit {
    B,
    KB,
    MB,
    GB,
    TB,
}

impl SizeUnit {
    /// The number of bytes that make one of this unit.
    pub open spec fn spec_factor(self) -> u64 {
        match self {
            SizeUnit::B => 1,
            SizeUnit::KB => 0x400,
            SizeUnit::MB => 0x10_0000,
            SizeUnit::GB => 0x4000_0000,
            SizeUnit::TB => 0x100_0000_0000,
        }
    }

    /// The label printed after the number.
    pub open spec fn spec_label(self) -> Seq<char> {
        match self {
            SizeUnit::B => seq!['B'],
            SizeUnit::KB => seq!['K', 'B'],
            SizeUnit::MB => seq!['M', 'B'],
            SizeUnit::GB => seq!['G', 'B'],
            SizeUnit::TB => seq!['T', 'B'],
        }
    }

    /// The largest unit whose threshold `bytes` meets or exceeds, and `B`
    /// when it meets none.
    pub open spec fn spec_of(bytes: u64) -> SizeUnit {
        if bytes >= 0x100_0000_0000 {
            SizeUnit::TB
        } else if bytes >= 0x4000_0000 {
            SizeUnit::GB
        } else if bytes >= 0x10_0000 {
            SizeUnit::MB
        } else if bytes >= 0x400 {
            SizeUnit::KB
        } else {
            SizeUnit::B
        }
    }

    /// The number of bytes that make one of this unit.
    #[verifier::when_used_as_spec(spec_factor)]
    pub fn factor(self) -> (f: u64)
        ensures
            f == self.spec_factor(),
    {
        match self {
            SizeUnit::B => 1,
            SizeUnit::KB => KB,
            SizeUnit::MB => MB,
            SizeUnit::GB => GB,
            SizeUnit::TB => TB,
        }
    }

    /// The label printed after the number: `B`, `KB`, `MB`, `GB` or `TB`.
    pub fn label(self) -> (text: &'static str)
        ensures
            text@ == self.spec_label(),
    {
        proof {
            reveal_strlit("B");
            reveal_strlit("KB");
            reveal_strlit("MB");
            reveal_strlit("GB");
            reveal_strlit("TB");
        }
        let text = match self {
            SizeUnit::B => "B",
            SizeUnit::KB => "KB",
            SizeUnit::MB => "MB",
            SizeUnit::GB => "GB",
            SizeUnit::TB => "TB",
        };
        assert(text@ =~= self.spec_label());
        text
    }

    /// Selects the unit for a byte count: the units are tried from the
    /// largest down, and the first whose threshold the count reaches is
    /// taken; a count below every threshold is shown in bytes.
    pub fn of(bytes: u64) -> (unit: SizeUnit)
        ensures
            unit == SizeUnit::spec_of(bytes),
    {
        if bytes >= TB {
            SizeUnit::TB
        } else if bytes >= GB {
            SizeUnit::GB
        } else if bytes >= MB {
            SizeUnit::MB
        } else if bytes >= KB {
            SizeUnit::KB
        } else {
            SizeUnit::B
        }
    }
}

/// The quotient `a / b` rounded to the nearest integer; a quotient that lies
/// exactly halfway between two integers goes to the even one.
pub open spec fn round_half_even(a: nat, b: nat) -> nat
    recommends
        b > 0,
{
    let q = a / b;
    let r = a % b;
    if 2 * r > b || (2 * r == b && q % 2 == 1) {
        q + 1
    } else {
        q
    }
}

/// The distance between neighbouring double-precision values around `n`:
/// integers below 2^53 are all representable, and the distance doubles with
/// every further bit.
pub open spec fn double_spacing(n: nat) -> nat
    decreases n,
{
    if n < 0x20_0000_0000_0000 {
        1
    } else {
        2 * double_spacing(n / 2)
    }
}

/// The double-precision value nearest to `n`, which is `n` itself below
/// 2^53 and the nearest multiple of the spacing above; ties go to the
/// multiple with the even significand.
pub open spec fn nearest_double(n: nat) -> nat {
    double_spacing(n) * round_half_even(n, double_spacing(n))
}

/// The number displayed for `bytes`, in hundredths of its unit.
pub open spec fn hundredths(bytes: u64) -> nat {
    round_half_even(nearest_double(bytes as nat) * 100, SizeUnit::spec_of(bytes).spec_factor() as nat)
}

/// The character for a decimal digit.
pub open spec fn digit(d: nat) -> char
    recommends
        d < 10,
{
    if d == 0 {
        '0'
    } else if d == 1 {
        '1'
    } else if d == 2 {
        '2'
    } else if d == 3 {
        '3'
    } else if d == 4 {
        '4'
    } else if d == 5 {
        '5'
    } else if d == 6 {
        '6'
    } else if d == 7 {
        '7'
    } else if d == 8 {
        '8'
    } else {
        '9'
    }
}

/// The decimal notation of `n`, without leading zeros.
pub open spec fn decimal(n: nat) -> Seq<char>
    decreases n,
{
    if n < 10 {
        seq![digit(n)]
    } else {
        decimal(n / 10).push(digit(n % 10))
    }
}

/// The text for a number given in hundredths: the whole part, a point, and
/// exactly two fractional digits.
pub open spec fn fixed2(h: nat) -> Seq<char> {
    decimal(h / 100) + seq!['.', digit(h % 100 / 10), digit(h % 10)]
}

/// The text that `format_size` produces for `bytes`.
pub open spec fn formatted_size(bytes: u64) -> Seq<char> {
    fixed2(hundredths(bytes)) + seq![' '] + SizeUnit::spec_of(bytes).spec_label()
}

/// The spacing is a power of two, at most 2^11 for a 64-bit count, and is 1
/// exactly where every integer is representable.
pub proof fn lemma_double_spacing_bounds(n: nat)
    ensures
        double_spacing(n) >= 1,
        n < 0x20_0000_0000_0000 ==> double_spacing(n) == 1,
        n >= 0x20_0000_0000_0000 ==> double_spacing(n) * 0x10_0000_0000_0000 <= n,
    decreases n,
{
    if n >= 0x20_0000_0000_0000 {
        lemma_double_spacing_bounds(n / 2);
    }
}

/// Counts below 2^53 are their own nearest double.
pub proof fn lemma_nearest_double_exact(n: nat)
    requires
        n < 0x20_0000_0000_0000,
    ensures
        nearest_double(n) == n,
{
    let s = double_spacing(n);
    assert(s == 1);
    assert(n / s == n && n % s == 0);
    assert(round_half_even(n, s) == n);
    assert(1 * n == n);
}

/// The nearest double is never further away than half the spacing.
pub proof fn lemma_nearest_double_close(n: nat)
    ensures
        2 * nearest_double(n) <= 2 * n + double_spacing(n),
        2 * n <= 2 * nearest_double(n) + double_spacing(n),
        nearest_double(n) % double_spacing(n) == 0,
{
    lemma_double_spacing_bounds(n);
    let s = double_spacing(n);
    let q = n / s;
    let r = n % s;
    assert(n == s * q + r) by (nonlinear_arith)
        requires
            s > 0,
            q == n / s,
            r == n % s,
    ;
    assert(s * (q + 1) == s * q + s) by (nonlinear_arith);
    assert((s * round_half_even(n, s)) % s == 0) by (nonlinear_arith)
        requires
            s > 0,
    ;
}

fn digit_text(d: u64) -> (text: &'static str)
    requires
        d < 10,
    ensures
        text@ == seq![digit(d as nat)],
{
    proof {
        reveal_strlit("0");
        reveal_strlit("1");
        reveal_strlit("2");
        reveal_strlit("3");
        reveal_strlit("4");
        reveal_strlit("5");
        reveal_strlit("6");
        reveal_strlit("7");
        reveal_strlit("8");
        reveal_strlit("9");
    }
    let text = if d == 0 {
        "0"
    } else if d == 1 {
        "1"
    } else if d == 2 {
        "2"
    } else if d == 3 {
        "3"
    } else if d == 4 {
        "4"
    } else if d == 5 {
        "5"
    } else if d == 6 {
        "6"
    } else if d == 7 {
        "7"
    } else if d == 8 {
        "8"
    } else {
        "9"
    };
    assert(text@ =~= seq![digit(d as nat)]);
    text
}

/// Writes `n` in decimal notation.
pub fn decimal_string(n: u64) -> (text: String)
    ensures
        text@ == decimal(n as nat),
    decreases n,
{
    if n < 10 {
        String::from_str(digit_text(n))
    } else {
        let mut text = decimal_string(n / 10);
        text.append(digit_text(n % 10));
        assert(text@ =~= decimal(n as nat));
        text
    }
}

fn spacing_of(n: u64) -> (s: u64)
    ensures
        s == double_spacing(n as nat),
        1 <= s < 0x1000,
    decreases n,
{
    proof {
        lemma_double_spacing_bounds(n as nat);
    }
    if n < 0x20_0000_0000_0000 {
        1
    } else {
        let half: u64 = spacing_of(n / 2);
        2 * half
    }
}

fn rounded_quotient(a: u128, b: u128) -> (q: u128)
    requires
        0 < b <= 0x1_0000_0000_0000_0000,
        a <= 0x1_0000_0000_0000_0000_0000_0000,
    ensures
        q == round_half_even(a as nat, b as nat),
        q <= a / b + 1,
{
    let q: u128 = a / b;
    let r: u128 = a % b;
    if 2 * r > b || (2 * r == b && q % 2 == 1) {
        q + 1
    } else {
        q
    }
}

fn nearest_double_of(n: u64) -> (m: u128)
    ensures
        m == nearest_double(n as nat),
        m <= 0x1_0000_0000_0000_0000,
        n < 0x20_0000_0000_0000 ==> m == n,
{
    let s: u64 = spacing_of(n);
    let q: u128 = rounded_quotient(n as u128, s as u128);
    proof {
        lemma_nearest_double_close(n as nat);
        lemma_double_spacing_bounds(n as nat);
        assert(s as nat * q as nat <= 0x1_0000_0000_0000_0000) by {
            // A multiple of the spacing within half a spacing of a 64-bit
            // count cannot exceed 2^64.
            let m = nearest_double(n as nat);
            assert(m == s as nat * q as nat);
            assert(2 * m <= 2 * n + s);
            assert(m % (s as nat) == 0);
            lemma_multiple_below_power(m, s as nat, n as nat);
        }
    }
    (s as u128) * q
}

/// A multiple of the spacing that is within half a step of a count below
/// 2^64 is at most 2^64.
proof fn lemma_multiple_below_power(m: nat, s: nat, n: nat)
    requires
        n < 0x1_0000_0000_0000_0000,
        s == double_spacing(n),
        m % s == 0,
        2 * m <= 2 * n + s,
    ensures
        m <= 0x1_0000_0000_0000_0000,
{
    lemma_spacing_divides_power(n);
    lemma_double_spacing_bounds(n);
    let top: nat = 0x1_0000_0000_0000_0000;
    // Both m and 2^64 are multiples of s, and m < 2^64 + s.
    assert(m < top + s);
    assert(m <= top) by (nonlinear_arith)
        requires
            s > 0,
            m % s == 0,
            top % s == 0,
            m < top + s,
    ;
}

/// The spacing around a 64-bit count divides 2^64.
proof fn lemma_spacing_divides_power(n: nat)
    requires
        n < 0x1_0000_0000_0000_0000,
    ensures
        0x1_0000_0000_0000_0000nat % double_spacing(n) == 0,
{
    lemma_double_spacing_bounds(n);
    reveal_with_fuel(double_spacing, 13);
    let s = double_spacing(n);
    assert(s == 1 || s == 2 || s == 4 || s == 8 || s == 16 || s == 32 || s == 64 || s == 128 || s
        == 256 || s == 512 || s == 1024 || s == 2048);
}

fn hundredths_of(bytes: u64) -> (h: u64)
    ensures
        h == hundredths(bytes),
{
    let unit = SizeUnit::of(bytes);
    let m: u128 = nearest_double_of(bytes);
    let f: u128 = unit.factor() as u128;
    let h: u128 = rounded_quotient(m * 100, f);
    assert(h <= 0xffff_ffff_ffff_ffff) by {
        let num: int = m as int * 100;
        let den: int = f as int;
        assert(h <= num / den + 1);
        if unit == SizeUnit::TB {
            assert(num / 0x100_0000_0000 <= 0x1_0000_0000_0000_0000 * 100 / 0x100_0000_0000);
        } else {
            assert(m == bytes);
            assert(bytes < 0x400 * den);
            assert(num / den <= 102400) by (nonlinear_arith)
                requires
                    num < 102400 * den,
                    den > 0,
            ;
        }
    }
    h as u64
}

/// Renders a byte count in its unit with two fractional digits, as in
/// `1023.00 B`, `1.00 KB` or `1.00 TB`.
///
/// The unit is the largest whose threshold the count reaches. The number is
/// the count divided by the unit in double precision, rounded to hundredths
/// with ties to even.
pub fn format_size(bytes: u64) -> (text: String)
    ensures
        text@ == formatted_size(bytes),
{
    let unit = SizeUnit::of(bytes);
    let h: u64 = hundredths_of(bytes);
    let mut text = decimal_string(h / 100);
    text.append(".");
    text.append(digit_text(h % 100 / 10));
    text.append(digit_text(h % 10));
    text.append(" ");
    text.append(unit.label());
    proof {
        reveal_strlit(".");
        reveal_strlit(" ");
        assert("."@ =~= seq!['.']);
        assert(" "@ =~= seq![' ']);
        assert(text@ =~= formatted_size(bytes));
    }
    text
}

} // verus!
