use vstd::arithmetic::power2::pow2;
use vstd::prelude::*;

verus! {

/// Magnitude of a signed 64-bit integer as an unsigned one (what `i64::unsigned_abs` gives).
pub open spec fn abs_i64(x: i64) -> u64 {
    if x < 0 {
        (-(x as int)) as u64
    } else {
        x as u64
    }
}

/// Magnitude of `x` without overflow, also for `i64::MIN`.
pub fn unsigned_abs(x: i64) -> (r: u64)
    ensures
        r == abs_i64(x),
        r as int == (if x < 0 { -(x as int) } else { x as int }),
{
    if x < 0 {
        if x == i64::MIN {
            9_223_372_036_854_775_808u64
        } else {
            (-x) as u64
        }
    } else {
        x as u64
    }
}

/// Largest magnitude up to which every integer is exactly a 64-bit float (2^53).
pub open spec fn float_exact_limit() -> nat {
    0x20_0000_0000_0000
}

/// Number of low bits a 64-bit float drops from the magnitude `x`: one per halving
/// until `x` fits in the 53-bit significand.
pub open spec fn float_dropped_bits(x: nat) -> nat
    decreases x,
{
    if x < float_exact_limit() {
        0
    } else {
        1 + float_dropped_bits(x / 2)
    }
}

/// The 64-bit float nearest to the magnitude `x`, ties to an even significand: what
/// `x as f64` is.
pub open spec fn float_nearest(x: nat) -> nat {
    let unit = pow2(float_dropped_bits(x));
    let q = x / unit;
    let r = x % unit;
    if 2 * r > unit || (2 * r == unit && q % 2 == 1) {
        (q + 1) * unit
    } else {
        q * unit
    }
}

/// What `((d as f64) * 0.5) as i64` gives: `d` rounded to the nearest float, halved
/// (exactly), then truncated toward zero.
pub open spec fn float_half(d: int) -> int {
    if d >= 0 {
        (float_nearest(d as nat) / 2) as int
    } else {
        -((float_nearest((-d) as nat) / 2) as int)
    }
}

/// `x` rounded to the nearest 64-bit float, for magnitudes up to 2^63.
fn nearest_float(x: u64) -> (r: u64)
    requires
        x <= 0x8000_0000_0000_0000,
    ensures
        r == float_nearest(x as nat),
{
    let mut y: u64 = x;
    let mut unit: u64 = 1;
    let ghost mut e: nat = 0;
    proof {
        vstd::arithmetic::power2::lemma2_to64();
    }
    while y >= 0x20_0000_0000_0000
        invariant
            x <= 0x8000_0000_0000_0000,
            unit == pow2(e),
            1 <= unit <= 0x800,
            y == x as nat / unit as nat,
            float_dropped_bits(x as nat) == e + float_dropped_bits(y as nat),
            e >= 1 ==> y >= 0x10_0000_0000_0000,
        decreases y,
    {
        proof {
            vstd::arithmetic::power2::lemma_pow2_unfold(e + 1);
            vstd::arithmetic::div_mod::lemma_div_denominator(x as int, unit as int, 2);
            assert((y / 2) as nat * (unit as nat * 2) <= x) by (nonlinear_arith)
                requires
                    y == x as nat / unit as nat,
                    unit >= 1,
            {
                vstd::arithmetic::div_mod::lemma_fundamental_div_mod(x as int, unit as int);
            }
            assert(unit * 2 <= 0x800) by (nonlinear_arith)
                requires
                    (y / 2) as nat * (unit as nat * 2) <= x,
                    y / 2 >= 0x10_0000_0000_0000,
                    x <= 0x8000_0000_0000_0000,
            ;
        }
        y = y / 2;
        unit = unit * 2;
        proof {
            e = e + 1;
        }
    }
    proof {
        vstd::arithmetic::div_mod::lemma_fundamental_div_mod(x as int, unit as int);
    }
    let q = y;
    let rem = x - q * unit;
    assert(rem == x as nat % unit as nat);
    let twice = 2 * rem;
    if twice > unit || (twice == unit && q % 2 == 1) {
        assert((q as nat + 1) * unit as nat <= x + unit) by (nonlinear_arith)
            requires
                q as nat * unit as nat <= x,
        ;
        (q + 1) * unit
    } else {
        q * unit
    }
}

/// `((d as f64) * 0.5) as i64`, in integer arithmetic.
pub fn float_half_of(d: i64) -> (h: i64)
    ensures
        h == float_half(d as int),
{
    let x = unsigned_abs(d);
    let r = nearest_float(x);
    let half = r / 2;
    proof {
        assert(float_nearest(x as nat) <= 2 * x) by {
            lemma_float_nearest_bound(x as nat);
        }
    }
    if d < 0 {
        -(half as i64)
    } else {
        half as i64
    }
}

/// The nearest float is at most twice the magnitude.
proof fn lemma_float_nearest_bound(x: nat)
    ensures
        float_nearest(x) <= 2 * x,
{
    let e = float_dropped_bits(x);
    let unit = pow2(e);
    vstd::arithmetic::power2::lemma_pow2_pos(e);
    lemma_float_unit_le(x);
    vstd::arithmetic::div_mod::lemma_fundamental_div_mod(x as int, unit as int);
    let q = x / unit;
    let r = x % unit;
    if unit == 1 {
        assert(r == 0);
        assert(unit * q == q) by (nonlinear_arith)
            requires
                unit == 1,
        {
        }
        assert(q == x);
    } else {
        assert(q * unit <= x) by (nonlinear_arith)
            requires
                unit * q + r == x,
                r >= 0,
        {
        }
        assert((q + 1) * unit == q * unit + unit) by (nonlinear_arith);
        assert(q * unit <= (q + 1) * unit) by (nonlinear_arith)
            requires
                unit >= 1,
        {
        }
    }
}

/// The dropped unit is at most the magnitude, and the quotient positive, once a bit is
/// dropped.
proof fn lemma_float_unit_le(x: nat)
    ensures
        pow2(float_dropped_bits(x)) == 1 || (pow2(float_dropped_bits(x)) <= x && x / pow2(
            float_dropped_bits(x),
        ) >= 1),
    decreases x,
{
    if x < float_exact_limit() {
        vstd::arithmetic::power2::lemma2_to64();
    } else {
        lemma_float_unit_le(x / 2);
        let e = float_dropped_bits(x / 2);
        vstd::arithmetic::power2::lemma_pow2_unfold(e + 1);
        vstd::arithmetic::power2::lemma_pow2_pos(e);
        vstd::arithmetic::div_mod::lemma_div_denominator(x as int, 2, pow2(e) as int);
        if pow2(e) == 1 {
            vstd::arithmetic::power2::lemma2_to64();
            assert(e == 0) by {
                if e > 0 {
                    vstd::arithmetic::power2::lemma_pow2_unfold(e);
                    vstd::arithmetic::power2::lemma_pow2_pos((e - 1) as nat);
                }
            }
            assert(x / 2 < float_exact_limit());
        }
        assert(pow2(e + 1) <= x) by (nonlinear_arith)
            requires
                pow2(e + 1) == 2 * pow2(e),
                pow2(e) <= x / 2 || pow2(e) == 1,
                x >= 2,
        {
        }
        assert(x / pow2(e + 1) >= 1) by (nonlinear_arith)
            requires
                pow2(e + 1) <= x,
                pow2(e + 1) >= 1,
        {
        }
    }
}

/// Below 2^53 every integer is a float, so halving through a float is exact division by
/// two rounded toward zero.
pub proof fn lemma_float_half_exact(d: int)
    requires
        -(float_exact_limit() as int) < d < float_exact_limit(),
    ensures
        float_half(d) == (if d >= 0 { d / 2 } else { -((-d) / 2) }),
{
    let x: nat = if d >= 0 { d as nat } else { (-d) as nat };
    assert(float_dropped_bits(x) == 0);
    vstd::arithmetic::power2::lemma2_to64();
    assert(x / 1 == x);
    assert(x % 1 == 0);
}

} // verus!
