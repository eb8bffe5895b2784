//! Exact decimal numbers.
//!
//! Fractional field values are held as a signed count of millionths, so every
//! value the planner handles is an exact decimal with up to six digits after
//! the point. All arithmetic on them (range stepping, comparison, the
//! integrality test behind the permissive integral coercion) is exact integer
//! arithmetic on the unit count.

use crate::text::render_u64;
use crate::text::spec_digits;
use vstd::arithmetic::div_mod::lemma_fundamental_div_mod;
use vstd::prelude::*;
use vstd::string::StrSliceExecFns;
use vstd::string::StringExecFns;

verus! {

/// One unit is a millionth: a `Dec` with `units == 1_500_000` is 1.5.
pub const DEC_SCALE: u64 = 1_000_000;

/// An exact decimal number: `units` millionths.
#[derive(Debug, Clone, Copy, PartialEq, Eq, Structural)]
pub struct Dec {
    pub units: i64,
}

impl Dec {
    /// The representable range is symmetric: `i64::MIN` is excluded so the
    /// magnitude of any `Dec` always fits in an `i64` itself.
    pub open spec fn wf(self) -> bool {
        self.units > i64::MIN
    }

    /// Magnitude in millionths.
    pub open spec fn abs_units(self) -> nat {
        if self.units >= 0 {
            self.units as nat
        } else {
            (-(self.units as int)) as nat
        }
    }

    /// A decimal is integral when it has no fractional part.
    pub open spec fn spec_integral(self) -> bool {
        self.abs_units() % (DEC_SCALE as nat) == 0
    }

    pub fn new(units: i64) -> (r: Dec)
        requires
            units > i64::MIN,
        ensures
            r.units == units,
            r.wf(),
    {
        Dec { units }
    }

    /// Whether the value has zero fractional part, e.g. 4.0 but not 4.5.
    pub fn is_integral(&self) -> (r: bool)
        requires
            self.wf(),
        ensures
            r == self.spec_integral(),
    {
        let m: u64 = if self.units < 0 {
            (-self.units) as u64
        } else {
            self.units as u64
        };
        m % DEC_SCALE == 0
    }

    pub fn le(&self, other: &Dec) -> (r: bool)
        ensures
            r == (self.units <= other.units),
    {
        self.units <= other.units
    }

    pub fn add(&self, other: &Dec) -> (r: Dec)
        requires
            self.units + other.units <= i64::MAX,
            self.units + other.units > i64::MIN,
        ensures
            r.units == self.units + other.units,
            r.wf(),
    {
        Dec { units: self.units + other.units }
    }

    /// The plain decimal text of the value: optional sign, whole part, and,
    /// when the fractional part is not zero, a point followed by the
    /// fractional digits with trailing zeros removed.
    pub open spec fn spec_render(self) -> Seq<char> {
        let m = self.abs_units();
        let whole = spec_digits(m / (DEC_SCALE as nat));
        let frac = m % (DEC_SCALE as nat);
        let body = if frac == 0 {
            whole
        } else {
            whole + seq!['.'] + spec_frac_digits(frac)
        };
        if self.units < 0 {
            seq!['-'] + body
        } else {
            body
        }
    }

    pub fn render(&self) -> (r: String)
        requires
            self.wf(),
        ensures
            r@ == self.spec_render(),
    {
        let neg = self.units < 0;
        let m: u64 = if neg {
            (-self.units) as u64
        } else {
            self.units as u64
        };
        let whole = render_u64(m / DEC_SCALE);
        let fr = m % DEC_SCALE;
        let mut out = String::new();
        if neg {
            proof {
                reveal_strlit("-");
            }
            out.append("-");
        }
        out.append(whole.as_str());
        if fr != 0 {
            proof {
                reveal_strlit(".");
            }
            out.append(".");
            let f = render_frac(fr);
            out.append(f.as_str());
        }
        proof {
            assert(m as nat == self.abs_units());
            assert(out@ =~= self.spec_render());
        }
        out
    }
}

/// `n` zero characters.
pub open spec fn spec_zeros(n: nat) -> Seq<char>
    decreases n,
{
    if n == 0 {
        Seq::empty()
    } else {
        spec_zeros((n - 1) as nat) + seq!['0']
    }
}

/// `s` with every trailing zero character removed.
pub open spec fn spec_strip_zeros(s: Seq<char>) -> Seq<char>
    decreases s.len(),
{
    if s.len() > 0 && s[s.len() - 1] == '0' {
        spec_strip_zeros(s.take(s.len() - 1))
    } else {
        s
    }
}

/// The digits after the point for a fractional part of `n` millionths:
/// zero-padded to six places, then stripped of trailing zeros.
pub open spec fn spec_frac_digits(n: nat) -> Seq<char> {
    spec_strip_zeros(spec_zeros((6 - spec_digits(n).len()) as nat) + spec_digits(n))
}

pub open spec fn pow10(k: nat) -> nat
    decreases k,
{
    if k == 0 {
        1
    } else {
        10 * pow10((k - 1) as nat)
    }
}

proof fn lemma_digits_len(n: nat, k: nat)
    requires
        k >= 1,
        n < pow10(k),
    ensures
        spec_digits(n).len() <= k,
    decreases k,
{
    if n < 10 {
    } else {
        assert(pow10(1) == 10) by {
            reveal_with_fuel(pow10, 2);
        };
        let q = n / 10;
        lemma_fundamental_div_mod(n as int, 10);
        assert(10 * q <= n);
        assert(q < pow10((k - 1) as nat));
        lemma_digits_len(q, (k - 1) as nat);
    }
}

fn render_frac(fr: u64) -> (r: String)
    requires
        0 < fr < DEC_SCALE,
    ensures
        r@ == spec_frac_digits(fr as nat),
{
    let d = render_u64(fr);
    let len = d.as_str().unicode_len();
    proof {
        reveal_with_fuel(pow10, 7);
        lemma_digits_len(fr as nat, 6);
    }
    let mut p = String::new();
    let mut k = len;
    proof {
        assert(p@ =~= spec_zeros(0));
    }
    while k < 6
        invariant
            len <= k <= 6,
            len == spec_digits(fr as nat).len(),
            p@ == spec_zeros((k - len) as nat),
        decreases 6 - k,
    {
        proof {
            reveal_strlit("0");
            assert(spec_zeros((k + 1 - len) as nat) =~= spec_zeros((k - len) as nat) + "0"@);
        }
        p.append("0");
        k = k + 1;
    }
    p.append(d.as_str());
    let n = p.as_str().unicode_len();
    let mut e = n;
    proof {
        assert(p@.take(n as int) =~= p@);
    }
    while e > 0 && p.as_str().get_char(e - 1) == '0'
        invariant
            e <= n,
            n == p@.len(),
            spec_strip_zeros(p@.take(e as int)) == spec_strip_zeros(p@),
        decreases e,
    {
        proof {
            assert(p@.take(e as int).take(e - 1) =~= p@.take(e - 1));
        }
        e = e - 1;
    }
    let r = String::from_str(p.as_str().substring_char(0, e));
    proof {
        assert(spec_strip_zeros(p@.take(e as int)) == p@.take(e as int));
    }
    r
}

} // verus!

