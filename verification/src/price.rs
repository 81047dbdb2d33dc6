use vstd::prelude::*;
use crate::errors::EngineError;

verus! {

/// Number of fractional decimal digits a `Price` keeps.
pub const PRICE_SCALE: u32 = 5;

/// An exact, totally-ordered fixed-point price: `units` counts
/// `10^-PRICE_SCALE` of the quoted currency. Two prices constructed from
/// the same decimal value are equal and hash identically, however the
/// value was originally written.
#[derive(Clone, Copy, Debug, PartialEq, Eq, Structural, Hash)]
pub struct Price {
    pub units: u64,
}

/// `10^e` as a mathematical integer.
pub open spec fn pow10(e: nat) -> int
    decreases e,
{
    if e == 0 {
        1
    } else {
        10 * pow10((e - 1) as nat)
    }
}

pub proof fn lemma_pow10_positive(e: nat)
    ensures
        pow10(e) >= 1,
    decreases e,
{
    if e > 0 {
        lemma_pow10_positive((e - 1) as nat);
    }
}

pub proof fn lemma_pow10_mono(a: nat, b: nat)
    requires
        a <= b,
    ensures
        pow10(a) <= pow10(b),
    decreases b,
{
    if a < b {
        lemma_pow10_mono(a, (b - 1) as nat);
        lemma_pow10_positive((b - 1) as nat);
    }
}

/// What the decimal parser returns on a given input: `Some((mantissa,
/// scale))` meaning `mantissa * 10^-scale`, or `None` when the input does
/// not parse as a decimal number.
pub uninterp spec fn dec_parse(s: Seq<char>) -> Option<(i128, u32)>;

/// Relies on `rust_decimal::Decimal::from_str` together with its
/// `mantissa` and `scale` accessors: the parsed value is a function of the
/// input characters alone.
#[verifier::external_body]
fn parse_decimal(s: &str) -> (r: Option<(i128, u32)>)
    ensures
        r == dec_parse(s@),
{
    match <rust_decimal::Decimal as core::str::FromStr>::from_str(s) {
        Ok(d) => Some((d.mantissa(), d.scale())),
        Err(_) => None,
    }
}

/// The price that `mantissa * 10^-scale` denotes, or the error reported:
/// negative and unrepresentably large values are invalid, and fractional
/// digits finer than `PRICE_SCALE` must all be zero or the input is
/// rejected rather than silently truncated.
pub open spec fn price_of_parts(mantissa: int, scale: nat) -> Result<Price, EngineError> {
    if mantissa < 0 {
        Err(EngineError::InvalidPrice)
    } else if scale <= PRICE_SCALE {
        let units = mantissa * pow10((PRICE_SCALE - scale) as nat);
        if units <= u64::MAX {
            Ok(Price { units: units as u64 })
        } else {
            Err(EngineError::InvalidPrice)
        }
    } else {
        let excess = (scale - PRICE_SCALE) as nat;
        if mantissa % pow10(excess) != 0 {
            Err(EngineError::PrecisionLoss)
        } else {
            let units = mantissa / pow10(excess);
            if units <= u64::MAX {
                Ok(Price { units: units as u64 })
            } else {
                Err(EngineError::InvalidPrice)
            }
        }
    }
}

impl Price {
    /// Builds a price from a parsed decimal representation
    /// `mantissa * 10^-scale`.
    pub fn from_parts(mantissa: i128, scale: u32) -> (r: Result<Price, EngineError>)
        ensures
            r == price_of_parts(mantissa as int, scale as nat),
    {
        if mantissa < 0 {
            return Err(EngineError::InvalidPrice);
        }
        let m: u128 = mantissa as u128;
        if scale <= PRICE_SCALE {
            let p: u128 = pow10_u128(PRICE_SCALE - scale);
            if m > u64::MAX as u128 {
                proof {
                    lemma_pow10_positive((PRICE_SCALE - scale) as nat);
                    assert(m * p >= m) by (nonlinear_arith)
                        requires p >= 1, m > 0;
                }
                return Err(EngineError::InvalidPrice);
            }
            proof {
                assert(pow10(5) == 100000) by {
                    reveal_with_fuel(pow10, 6);
                };
                lemma_pow10_mono((PRICE_SCALE - scale) as nat, 5);
                assert(m * p <= (u64::MAX as int) * 100000) by (nonlinear_arith)
                    requires 0 <= m <= u64::MAX as int, 0 <= p <= 100000;
                assert((u64::MAX as int) * 100000 < u128::MAX);
            }
            let units: u128 = m * p;
            if units > u64::MAX as u128 {
                Err(EngineError::InvalidPrice)
            } else {
                Ok(Price { units: units as u64 })
            }
        } else {
            let excess: u32 = scale - PRICE_SCALE;
            if excess >= 39 {
                proof {
                    assert(pow10(39) > i128::MAX) by {
                        reveal_with_fuel(pow10, 40);
                    };
                    lemma_pow10_mono(39, excess as nat);
                    assert(m < pow10(excess as nat));
                    vstd::arithmetic::div_mod::lemma_small_mod(m as nat, pow10(excess as nat) as nat);
                    vstd::arithmetic::div_mod::lemma_div_of0(pow10(excess as nat));
                }
                if m == 0 {
                    return Ok(Price { units: 0 });
                } else {
                    return Err(EngineError::PrecisionLoss);
                }
            }
            let p: u128 = pow10_u128(excess);
            proof {
                lemma_pow10_positive(excess as nat);
            }
            if m % p != 0 {
                Err(EngineError::PrecisionLoss)
            } else {
                let units: u128 = m / p;
                if units > u64::MAX as u128 {
                    Err(EngineError::InvalidPrice)
                } else {
                    Ok(Price { units: units as u64 })
                }
            }
        }
    }

    /// Parses a decimal string (for example `"20.6"`) into an exact price.
    /// Inputs that do not parse, are negative, or are too large are
    /// rejected with `InvalidPrice`; inputs with a nonzero digit finer than
    /// `PRICE_SCALE` fractional digits are rejected with `PrecisionLoss`.
    pub fn from_decimal(s: &str) -> (r: Result<Price, EngineError>)
        ensures
            r == (match dec_parse(s@) {
                None => Err::<Price, EngineError>(EngineError::InvalidPrice),
                Some((mantissa, scale)) => price_of_parts(mantissa as int, scale as nat),
            }),
    {
        match parse_decimal(s) {
            None => Err(EngineError::InvalidPrice),
            Some((mantissa, scale)) => Price::from_parts(mantissa, scale),
        }
    }
}

/// `10^e` as a machine integer, for exponents small enough to fit.
fn pow10_u128(e: u32) -> (r: u128)
    requires
        e <= 38,
    ensures
        r == pow10(e as nat),
{
    proof {
        assert(pow10(38) < u128::MAX) by {
            reveal_with_fuel(pow10, 39);
        };
    }
    let mut acc: u128 = 1;
    let mut i: u32 = 0;
    while i < e
        invariant
            i <= e <= 38,
            acc == pow10(i as nat),
        decreases e - i,
    {
        proof {
            assert(pow10(38) < u128::MAX) by {
                reveal_with_fuel(pow10, 39);
            };
            lemma_pow10_mono((i + 1) as nat, 38);
            assert(pow10((i + 1) as nat) == 10 * pow10(i as nat));
        }
        acc = acc * 10;
        i = i + 1;
    }
    acc
}

} // verus!
