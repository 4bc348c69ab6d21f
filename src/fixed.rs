use rust_decimal::Decimal;
use vstd::prelude::*;

verus! {

/// `rust_decimal::Decimal`, carried through as an opaque value.
#[verifier::external_type_specification]
#[verifier::external_body]
pub struct ExDecimal(Decimal);

/// Relies on `Decimal::mantissa`: the integer whose value, divided by ten to
/// the power of the scale, is the decimal's value.
pub assume_specification[ Decimal::mantissa ](d: &Decimal) -> i128;

/// Relies on `Decimal::scale`: the number of decimal places of the mantissa.
pub assume_specification[ Decimal::scale ](d: &Decimal) -> u32;

/// The largest scale a `Decimal` can carry.
pub const MAX_DECIMAL_SCALE: u32 = 28;

/// Ten to the power `n`.
pub open spec fn pow10(n: nat) -> int
    decreases n,
{
    if n == 0 {
        1
    } else {
        10 * pow10((n - 1) as nat)
    }
}

/// `units` steps of `10^-SCALE` are exactly `mantissa * 10^-scale`.
pub open spec fn represents(units: int, mantissa: int, scale: nat) -> bool {
    units * pow10(scale) == mantissa * pow10(SCALE as nat)
}

proof fn lemma_pow10_positive(n: nat)
    ensures
        pow10(n) > 0,
    decreases n,
{
    if n > 0 {
        lemma_pow10_positive((n - 1) as nat);
    }
}

proof fn lemma_pow10_add(a: nat, b: nat)
    ensures
        pow10(a + b) == pow10(a) * pow10(b),
    decreases a,
{
    if a > 0 {
        lemma_pow10_add((a - 1) as nat, b);
        assert(pow10(a + b) == 10 * pow10((a - 1 + b) as nat));
        assert(10 * (pow10((a - 1) as nat) * pow10(b)) == (10 * pow10((a - 1) as nat)) * pow10(b))
            by (nonlinear_arith);
    }
}

proof fn lemma_pow10_monotone(a: nat, b: nat)
    requires
        a <= b,
    ensures
        pow10(a) <= pow10(b),
    decreases b,
{
    if a < b {
        lemma_pow10_monotone(a, (b - 1) as nat);
        lemma_pow10_positive((b - 1) as nat);
    }
}

/// Ten to the power `n`.
fn pow10_exec(n: u32) -> (r: u128)
    requires
        n <= MAX_DECIMAL_SCALE,
    ensures
        r == pow10(n as nat),
        0 < r <= 10000000000000000000000000000u128,
{
    proof {
        reveal_with_fuel(pow10, 29);
        assert(pow10(28) == 10000000000000000000000000000int);
    }
    let mut r: u128 = 1;
    let mut i: u32 = 0;
    while i < n
        invariant
            i <= n <= MAX_DECIMAL_SCALE,
            r == pow10(i as nat),
            pow10(28) == 10000000000000000000000000000int,
        decreases n - i,
    {
        proof {
            lemma_pow10_monotone((i + 1) as nat, 28);
        }
        r = r * 10;
        i = i + 1;
    }
    proof {
        lemma_pow10_positive(n as nat);
        lemma_pow10_monotone(n as nat, 28);
    }
    r
}

/// Number of decimal places carried by a [`Fixed`] value.
pub const SCALE: u32 = 8;

/// A non-negative fixed-point decimal: `units` counts steps of `10^-SCALE`.
#[derive(Clone, Copy, Debug, PartialEq, Eq, Structural)]
pub struct Fixed {
    pub units: u64,
}

impl Fixed {
    pub fn from_units(units: u64) -> (r: Fixed)
        ensures
            r.units == units,
    {
        Fixed { units }
    }

    pub fn zero() -> (r: Fixed)
        ensures
            r.units == 0,
    {
        Fixed { units: 0 }
    }

    pub fn units(&self) -> (r: u64)
        ensures
            r == self.units,
    {
        self.units
    }

    pub fn is_zero(&self) -> (r: bool)
        ensures
            r == (self.units == 0),
    {
        self.units == 0
    }

    /// The value `mantissa * 10^-scale`, when it is non-negative and fits
    /// exactly in `SCALE` decimal places and in `u64` units.
    pub fn from_parts(mantissa: i128, scale: u32) -> (r: Option<Fixed>)
        ensures
            r matches Some(f) ==> represents(f.units as int, mantissa as int, scale as nat),
            r is None ==> scale > MAX_DECIMAL_SCALE || forall|u: int|
                0 <= u <= u64::MAX ==> !represents(u, mantissa as int, scale as nat),
    {
        if scale > MAX_DECIMAL_SCALE {
            return None;
        }
        proof {
            lemma_pow10_positive(scale as nat);
            lemma_pow10_positive(SCALE as nat);
        }
        if mantissa < 0 {
            proof {
                assert forall|u: int| 0 <= u <= u64::MAX implies !represents(
                    u,
                    mantissa as int,
                    scale as nat,
                ) by {
                    let a = pow10(scale as nat);
                    let ghost b = pow10(SCALE as nat);
                    assert(u * a >= 0) by (nonlinear_arith)
                        requires
                            u >= 0,
                            a > 0,
                    ;
                    assert(mantissa * b < 0) by (nonlinear_arith)
                        requires
                            mantissa < 0,
                            b > 0,
                    ;
                }
            }
            return None;
        }
        if scale <= SCALE {
            let f = pow10_exec(SCALE - scale) as i128;
            proof {
                lemma_pow10_add((SCALE - scale) as nat, scale as nat);
                lemma_pow10_positive((SCALE - scale) as nat);
                assert((SCALE - scale) as nat + scale as nat == SCALE as nat);
            }
            if mantissa > (u64::MAX as i128) / f {
                proof {
                    assert forall|u: int| 0 <= u <= u64::MAX implies !represents(
                        u,
                        mantissa as int,
                        scale as nat,
                    ) by {
                        let a = pow10(scale as nat);
                        let m = mantissa as int;
                        let fi = f as int;
                        assert(m * fi > u64::MAX) by (nonlinear_arith)
                            requires
                                m > (u64::MAX as int) / fi,
                                fi > 0,
                        ;
                        assert(m * (fi * a) == (m * fi) * a) by (nonlinear_arith);
                        assert(u * a != (m * fi) * a) by (nonlinear_arith)
                            requires
                                u <= u64::MAX,
                                m * fi > u64::MAX,
                                a > 0,
                        ;
                    }
                }
                return None;
            }
            proof {
                let a = pow10(scale as nat);
                let m = mantissa as int;
                let fi = f as int;
                assert(m * fi <= u64::MAX) by (nonlinear_arith)
                    requires
                        m <= (u64::MAX as int) / fi,
                        fi > 0,
                ;
                assert(m * (fi * a) == (m * fi) * a) by (nonlinear_arith);
            }
            let units = mantissa * f;
            Some(Fixed { units: units as u64 })
        } else {
            let d = pow10_exec(scale - SCALE) as i128;
            proof {
                lemma_pow10_add(SCALE as nat, (scale - SCALE) as nat);
                lemma_pow10_positive((scale - SCALE) as nat);
                assert(SCALE as nat + (scale - SCALE) as nat == scale as nat);
                lemma_pow10_monotone((scale - SCALE) as nat, 28);
            }
            let q = mantissa / d;
            let rem = mantissa % d;
            let ghost b = pow10(SCALE as nat);
            if rem != 0 || q > u64::MAX as i128 {
                proof {
                    assert forall|u: int| 0 <= u <= u64::MAX implies !represents(
                        u,
                        mantissa as int,
                        scale as nat,
                    ) by {
                        let m = mantissa as int;
                        let di = d as int;
                        if represents(u, m, scale as nat) {
                            assert(u * (b * di) == (u * di) * b) by (nonlinear_arith);
                            assert(u * di == m) by (nonlinear_arith)
                                requires
                                    (u * di) * b == m * b,
                                    b > 0,
                            ;
                            vstd::arithmetic::div_mod::lemma_fundamental_div_mod_converse(
                                m,
                                di,
                                u,
                                0,
                            );
                        }
                    }
                }
                return None;
            }
            proof {
                let m = mantissa as int;
                let di = d as int;
                let qi = q as int;
                vstd::arithmetic::div_mod::lemma_fundamental_div_mod(m, di);
                assert(m == di * qi);
                assert(qi * (b * di) == m * b) by (nonlinear_arith)
                    requires
                        m == di * qi,
                ;
            }
            Some(Fixed { units: q as u64 })
        }
    }

    /// Converts a `Decimal` with `from_parts`, from its mantissa and scale.
    pub fn from_decimal(d: &Decimal) -> (r: Option<Fixed>) {
        Fixed::from_parts(d.mantissa(), d.scale())
    }
}

} // verus!
