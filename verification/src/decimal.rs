//! A plain model of `rust_decimal::Decimal` (mantissa and scale) and the
//! exact, order-preserving integer key by which the order book sorts prices.
use vstd::prelude::*;

verus! {

/// The largest scale a decimal may carry.
pub const MAX_SCALE: u32 = 28;

/// Mantissas are strictly below this bound in absolute value (2^96).
pub const MANTISSA_BOUND: i128 = 79228162514264337593543950336;

/// `10^e`.
pub open spec fn pow10(e: nat) -> int
    decreases e,
{
    if e == 0 {
        1
    } else {
        10 * pow10((e - 1) as nat)
    }
}

/// Powers of ten are positive.
pub proof fn lemma_pow10_positive(e: nat)
    ensures
        pow10(e) >= 1,
    decreases e,
{
    if e > 0 {
        lemma_pow10_positive((e - 1) as nat);
    }
}

/// `10^a * 10^b == 10^(a + b)`.
pub proof fn lemma_pow10_adds(a: nat, b: nat)
    ensures
        pow10(a) * pow10(b) == pow10(a + b),
    decreases a,
{
    if a > 0 {
        lemma_pow10_adds((a - 1) as nat, b);
        assert(pow10(a) * pow10(b) == 10 * (pow10((a - 1) as nat) * pow10(b))) by (nonlinear_arith)
            requires
                pow10(a) == 10 * pow10((a - 1) as nat),
        ;
    }
}

/// Powers of ten grow with the exponent.
pub proof fn lemma_pow10_monotone(a: nat, b: nat)
    requires
        a <= b,
    ensures
        pow10(a) <= pow10(b),
    decreases b,
{
    if a < b {
        lemma_pow10_monotone(a, (b - 1) as nat);
        lemma_pow10_positive((b - 1) as nat);
    }
}

/// The value of `10^28`.
pub proof fn lemma_pow10_28()
    ensures
        pow10(28) == 10000000000000000000000000000,
{
    reveal_with_fuel(pow10, 29);
}

/// A decimal number `mantissa / 10^scale`, as `rust_decimal::Decimal` holds it.
#[derive(Clone, Copy, Debug, PartialEq, Eq, Structural)]
pub struct Dec {
    pub mantissa: i128,
    pub scale: u32,
}

/// `a` comes strictly before `b` in the lexicographic order of pairs.
pub open spec fn key_lt(a: (i128, u128), b: (i128, u128)) -> bool {
    a.0 < b.0 || (a.0 == b.0 && a.1 < b.1)
}

impl Dec {
    /// The range that every `rust_decimal::Decimal` keeps.
    pub open spec fn wf(self) -> bool {
        &&& -MANTISSA_BOUND < self.mantissa < MANTISSA_BOUND
        &&& self.scale <= MAX_SCALE
    }

    /// The value times `10^28`, an exact integer for every well-formed decimal.
    pub open spec fn scaled(self) -> int {
        self.mantissa * pow10((MAX_SCALE - self.scale) as nat)
    }

    /// The value is zero.
    pub open spec fn spec_is_zero(self) -> bool {
        self.mantissa == 0
    }

    /// The sort key: the floor of the value, and the fractional part in units of `10^-28`.
    pub open spec fn key_spec(self) -> (i128, u128) {
        let p = pow10(self.scale as nat);
        (
            ((self.mantissa as int) / p) as i128,
            (((self.mantissa as int) % p) * pow10((MAX_SCALE - self.scale) as nat)) as u128,
        )
    }

    /// Whether the value is zero (`Decimal::is_zero`), at whatever scale.
    pub fn is_zero(&self) -> (r: bool)
        ensures
            r == self.spec_is_zero(),
            self.wf() ==> (r <==> self.scaled() == 0),
    {
        proof {
            if self.wf() {
                lemma_zero_iff_value_zero(*self);
            }
        }
        self.mantissa == 0
    }

    /// The sort key of the value; see `key_spec`.
    pub fn key(&self) -> (k: (i128, u128))
        requires
            self.wf(),
        ensures
            k == self.key_spec(),
    {
        let s = self.scale;
        let mut p: u128 = 1;
        let mut i: u32 = 0;
        proof {
            lemma_pow10_monotone(s as nat, 28);
            lemma_pow10_28();
        }
        while i < s
            invariant
                i <= s <= 28,
                p == pow10(i as nat),
                pow10(s as nat) <= 10000000000000000000000000000,
            decreases s - i,
        {
            proof {
                lemma_pow10_monotone((i + 1) as nat, s as nat);
            }
            p = p * 10;
            i = i + 1;
        }
        let mut q: u128 = 1;
        let mut j: u32 = 0;
        let rest: u32 = MAX_SCALE - s;
        proof {
            lemma_pow10_monotone(rest as nat, 28);
        }
        while j < rest
            invariant
                j <= rest <= 28,
                q == pow10(j as nat),
                pow10(rest as nat) <= 10000000000000000000000000000,
            decreases rest - j,
        {
            proof {
                lemma_pow10_monotone((j + 1) as nat, rest as nat);
            }
            q = q * 10;
            j = j + 1;
        }
        proof {
            lemma_pow10_positive(s as nat);
            lemma_pow10_positive(rest as nat);
            lemma_pow10_adds(s as nat, rest as nat);
            lemma_pow10_28();
        }
        let m = self.mantissa;
        let floor: i128;
        let frac: u128;
        if m >= 0 {
            let a = m as u128;
            proof {
                assert((a % p) * q < p * q) by (nonlinear_arith)
                    requires a % p < p, q >= 1;
                assert(a / p <= a) by (nonlinear_arith) requires p >= 1;
            }
            floor = (a / p) as i128;
            frac = (a % p) * q;
        } else {
            let a = (-m) as u128;
            let d = a / p;
            let r = a % p;
            proof {
                assert(a == d * p + r) by (nonlinear_arith) requires d == a / p, r == a % p, p >= 1;
                assert(d <= a) by (nonlinear_arith) requires d == a / p, p >= 1;
            }
            if r == 0 {
                floor = -(d as i128);
                frac = 0;
                proof {
                    assert(m == (-(d as int)) * p) by (nonlinear_arith)
                        requires a == d * p + r, r == 0, m == -(a as int);
                    assert((m as int) / (p as int) == -(d as int)) by (nonlinear_arith)
                        requires m == (-(d as int)) * p, p >= 1;
                    assert((m as int) % (p as int) == 0) by (nonlinear_arith)
                        requires m == (-(d as int)) * p, p >= 1;
                }
            } else {
                proof {
                    assert((p - r) * q < p * q) by (nonlinear_arith)
                        requires 0 < r < p, q >= 1;
                }
                floor = -(d as i128) - 1;
                frac = (p - r) * q;
                proof {
                    assert(m == (-(d as int) - 1) * p + (p - r)) by (nonlinear_arith)
                        requires a == d * p + r, m == -(a as int);
                    assert((m as int) / (p as int) == -(d as int) - 1) by (nonlinear_arith)
                        requires m == (-(d as int) - 1) * p + (p - r), 0 < r < p;
                    assert((m as int) % (p as int) == p - r) by (nonlinear_arith)
                        requires m == (-(d as int) - 1) * p + (p - r), 0 < r < p;
                    assert((p - r) * q < p * q) by (nonlinear_arith)
                        requires 0 < r < p, q >= 1;
                }
            }
        }
        (floor, frac)
    }
}

/// A decimal is zero exactly when its value is zero, whatever its scale: `0.00000000` is zero
/// as much as `0` is.
pub proof fn lemma_zero_iff_value_zero(d: Dec)
    requires
        d.wf(),
    ensures
        d.spec_is_zero() <==> d.scaled() == 0,
{
    let q = pow10((MAX_SCALE - d.scale) as nat);
    lemma_pow10_positive((MAX_SCALE - d.scale) as nat);
    let m = d.mantissa as int;
    assert(m * q == 0 <==> m == 0) by (nonlinear_arith)
        requires q >= 1;
}

/// The sort key splits the scaled value: `scaled == floor * 10^28 + fraction`,
/// with the fraction in `[0, 10^28)`.
pub proof fn lemma_key_splits_value(a: Dec)
    requires
        a.wf(),
    ensures
        a.scaled() == (a.key_spec().0 as int) * pow10(28) + (a.key_spec().1 as int),
        0 <= a.key_spec().1 < pow10(28),
{
    let p = pow10(a.scale as nat);
    let q = pow10((MAX_SCALE - a.scale) as nat);
    let m = a.mantissa as int;
    lemma_pow10_positive(a.scale as nat);
    lemma_pow10_positive((MAX_SCALE - a.scale) as nat);
    lemma_pow10_adds(a.scale as nat, (MAX_SCALE - a.scale) as nat);
    lemma_pow10_28();
    let f = m / p;
    let r = m % p;
    assert(m == p * f + r && 0 <= r < p) by (nonlinear_arith)
        requires f == m / p, r == m % p, p >= 1;
    assert(-MANTISSA_BOUND <= f <= MANTISSA_BOUND) by (nonlinear_arith)
        requires m == p * f + r, 0 <= r < p, p >= 1, -MANTISSA_BOUND < m < MANTISSA_BOUND;
    assert(m * q == f * (p * q) + r * q) by (nonlinear_arith)
        requires m == p * f + r;
    assert(0 <= r * q < p * q) by (nonlinear_arith)
        requires 0 <= r < p, q >= 1;
}

/// Pairs `(f, r)` with `r` in `[0, n)` are ordered lexicographically exactly as `f * n + r`.
proof fn lemma_lex_matches_linear(f1: int, r1: int, f2: int, r2: int, n: int)
    requires
        n >= 1,
        0 <= r1 < n,
        0 <= r2 < n,
    ensures
        (f1 < f2 || (f1 == f2 && r1 < r2)) <==> f1 * n + r1 < f2 * n + r2,
        (f1 == f2 && r1 == r2) <==> f1 * n + r1 == f2 * n + r2,
{
    if f1 < f2 {
        assert(f1 * n + r1 < f2 * n + r2) by (nonlinear_arith)
            requires f1 < f2, n >= 1, 0 <= r1 < n, 0 <= r2;
    } else if f1 > f2 {
        assert(f1 * n + r1 > f2 * n + r2) by (nonlinear_arith)
            requires f1 > f2, n >= 1, 0 <= r2 < n, 0 <= r1;
    }
}

/// Two well-formed decimals compare by their sort keys exactly as they compare by value:
/// the key of `a` comes first iff `a < b`, and the keys are equal iff the values are.
pub proof fn lemma_key_order(a: Dec, b: Dec)
    requires
        a.wf(),
        b.wf(),
    ensures
        key_lt(a.key_spec(), b.key_spec()) <==> a.scaled() < b.scaled(),
        (a.key_spec() == b.key_spec()) <==> a.scaled() == b.scaled(),
{
    lemma_key_splits_value(a);
    lemma_key_splits_value(b);
    lemma_pow10_28();
    lemma_lex_matches_linear(
        a.key_spec().0 as int,
        a.key_spec().1 as int,
        b.key_spec().0 as int,
        b.key_spec().1 as int,
        pow10(28),
    );
}

#[verifier::external_type_specification]
#[verifier::external_body]
pub struct ExDecimalError(rust_decimal::Error);

/// The `(mantissa, scale)` of the decimal that `rust_decimal` reads from a text, or `None`
/// when it refuses the text.
pub uninterp spec fn decimal_from_text(text: Seq<char>) -> Option<(i128, u32)>;

/// Reads a decimal with `<rust_decimal::Decimal as FromStr>::from_str` and takes its
/// `mantissa()` and `scale()`. Claimed: the call succeeds exactly when the named result is
/// `Some`, and then gives that mantissa and scale; and, as `mantissa` builds its value from
/// three 32-bit words and the crate keeps every scale within `MAX_SCALE`, the result is
/// well-formed.
#[verifier::external_body]
fn read_decimal(text: &str) -> (r: Result<Dec, rust_decimal::Error>)
    ensures
        r is Ok <==> decimal_from_text(text@) is Some,
        r matches Ok(d) ==> decimal_from_text(text@) == Some((d.mantissa, d.scale)) && d.wf(),
{
    match <rust_decimal::Decimal as std::str::FromStr>::from_str(text) {
        Ok(d) => Ok(Dec { mantissa: d.mantissa(), scale: d.scale() }),
        Err(e) => Err(e),
    }
}

/// The decimal that a text denotes, if `rust_decimal` reads it.
pub open spec fn decimal_of_text(text: Seq<char>) -> Option<Dec> {
    match decimal_from_text(text) {
        Some((m, s)) => Some(Dec { mantissa: m, scale: s }),
        None => None,
    }
}

/// Reads a decimal from its text; `None` when `rust_decimal` refuses it.
pub fn parse_decimal_text(text: &str) -> (r: Option<Dec>)
    ensures
        r == decimal_of_text(text@),
        r matches Some(d) ==> d.wf(),
{
    match read_decimal(text) {
        Ok(d) => Some(d),
        Err(_) => None,
    }
}

} // verus!
