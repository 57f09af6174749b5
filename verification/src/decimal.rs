//! Exact decimal texts and their conversion to integer units.
//!
//! A text like `2000.5` denotes an exact decimal `mantissa / 10^scale`; the
//! outside decimal library parses the text, and the verified conversion
//! turns the pair into a count of minimal units at the engine's scale,
//! rejecting anything negative, inexact at that scale, or out of range.

use vstd::prelude::*;

verus! {

/// The exact decimal a text denotes, as (mantissa, scale) with value
/// `mantissa / 10^scale`, or nothing when the text is not such a decimal.
/// The result depends on the characters alone.
pub uninterp spec fn decimal_of(s: Seq<char>) -> Option<(i128, u32)>;

/// Relies on `rust_decimal::Decimal::from_str_exact`, `Decimal::mantissa`
/// and `Decimal::scale`: parses the text into an exact decimal without
/// rounding, handing back its mantissa and scale; the scale is at most 28.
#[verifier::external_body]
pub(crate) fn parse_decimal_text(s: &str) -> (r: Option<(i128, u32)>)
    ensures
        r == decimal_of(s@),
        r is Some ==> r.unwrap().1 <= 28,
{
    match rust_decimal::Decimal::from_str_exact(s) {
        Ok(d) => Some((d.mantissa(), d.scale())),
        Err(_) => None,
    }
}

/// Ten to the `n`.
pub open spec fn pow10(n: nat) -> int
    decreases n,
{
    if n == 0 {
        1
    } else {
        10 * pow10((n - 1) as nat)
    }
}

pub proof fn lemma_pow10_pos(n: nat)
    ensures
        pow10(n) >= 1,
    decreases n,
{
    if n > 0 {
        lemma_pow10_pos((n - 1) as nat);
    }
}

pub proof fn lemma_pow10_le(a: nat, b: nat)
    requires
        a <= b,
    ensures
        pow10(a) <= pow10(b),
    decreases b,
{
    if a < b {
        lemma_pow10_le(a, (b - 1) as nat);
        lemma_pow10_pos((b - 1) as nat);
    }
}

/// Ten to the `n`, executable.
fn pow10_u128(n: u32) -> (r: u128)
    requires
        n <= 28,
    ensures
        r == pow10(n as nat),
{
    proof {
        assert(pow10(28) == 10000000000000000000000000000) by {
            reveal_with_fuel(pow10, 30);
        }
    }
    let mut r: u128 = 1;
    let mut i: u32 = 0;
    while i < n
        invariant
            i <= n <= 28,
            r == pow10(i as nat),
            pow10(28) == 10000000000000000000000000000,
        decreases n - i,
    {
        proof {
            lemma_pow10_le((i + 1) as nat, 28);
            lemma_pow10_pos(i as nat);
        }
        r = r * 10;
        i = i + 1;
    }
    r
}

/// The number of minimal units, at `scale` fraction digits per unit, that
/// the exact decimal `m / 10^s` equals: defined when the decimal is
/// non-negative, exactly representable at that scale, and within range.
pub open spec fn units_of(m: i128, s: u32, scale: u32) -> Option<u64> {
    if m < 0 {
        Option::None
    } else if s <= scale {
        let v = m * pow10((scale - s) as nat);
        if v <= u64::MAX {
            Some(v as u64)
        } else {
            Option::None
        }
    } else {
        let p = pow10((s - scale) as nat);
        if m % (p as i128) == 0 {
            let v = m / (p as i128);
            if v <= u64::MAX {
                Some(v as u64)
            } else {
                Option::None
            }
        } else {
            Option::None
        }
    }
}

/// Converts a parsed decimal to units at the engine's scale.
pub fn units_from_parts(m: i128, s: u32, scale: u32) -> (r: Option<u64>)
    requires
        s <= 28,
        scale <= 19,
    ensures
        r == units_of(m, s, scale),
{
    if m < 0 {
        return None;
    }
    let mu = m as u128;
    if s <= scale {
        let p = pow10_u128(scale - s);
        proof {
            lemma_pow10_pos((scale - s) as nat);
            lemma_pow10_le((scale - s) as nat, 19);
            assert(pow10(19) == 10000000000000000000int) by {
                reveal_with_fuel(pow10, 21);
            }
        }
        if mu > u64::MAX as u128 {
            proof {
                assert(m * pow10((scale - s) as nat) >= m * 1) by (nonlinear_arith)
                    requires m >= 0, pow10((scale - s) as nat) >= 1;
            }
            return None;
        }
        proof {
            assert(mu * (p as u128) < 0x1_0000_0000_0000_0000_0000_0000_0000_0000)
                by (nonlinear_arith)
                requires
                    mu <= u64::MAX,
                    p as int <= 10000000000000000000int,
            ;
            assert(m * pow10((scale - s) as nat) == mu * (p as u128));
        }
        let v = mu * p;
        if v <= u64::MAX as u128 {
            Some(v as u64)
        } else {
            None
        }
    } else {
        let p = pow10_u128(s - scale);
        proof {
            lemma_pow10_pos((s - scale) as nat);
            lemma_pow10_le((s - scale) as nat, 28);
            assert(pow10(28) == 10000000000000000000000000000) by {
                reveal_with_fuel(pow10, 30);
            }
            assert(p as int <= 10000000000000000000000000000int);
            assert((p as i128) as int == p as int);
            assert((m as u128) as int == m as int);
        }
        if mu % p == 0 {
            let v = mu / p;
            proof {
                assert(v as int == mu as int / p as int);
                assert(m as int % (p as int) == mu as int % (p as int));
                assert(v as int == m / (p as i128));
                assert(v <= mu) by (nonlinear_arith)
                    requires p >= 1, v == mu as int / p as int, mu >= 0;
            }
            if v <= u64::MAX as u128 {
                Some(v as u64)
            } else {
                None
            }
        } else {
            proof {
                assert(m % (p as i128) != 0);
            }
            None
        }
    }
}

/// The units a decimal text denotes at the engine's scale.
pub open spec fn spec_parse_units(s: Seq<char>, scale: u32) -> Option<u64> {
    match decimal_of(s) {
        Option::None => Option::None,
        Some(p) => units_of(p.0, p.1, scale),
    }
}

/// Parses a decimal text into units at the engine's scale: the parse is the
/// outside library's, the conversion is verified.
pub fn parse_units(s: &str, scale: u32) -> (r: Option<u64>)
    requires
        scale <= 19,
    ensures
        r == spec_parse_units(s@, scale),
{
    match parse_decimal_text(s) {
        None => None,
        Some((m, sc)) => units_from_parts(m, sc, scale),
    }
}

} // verus!
