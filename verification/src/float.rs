//! IEEE binary32 and binary64 numbers by their bit patterns.
//!
//! A number is held as its bits and worked on with integers alone. The
//! arithmetic rounds to the nearest representable number and, between two
//! equally near, to the one with an even significand.
//!
//! The bits below the sign are the *index* of a magnitude: the representable
//! magnitudes in ascending order are numbered by their bits, from zero up to
//! infinity. A finite magnitude is counted in units of the smallest positive
//! number of its format.
use vstd::arithmetic::power2::{
    lemma2_to64, lemma2_to64_rest, lemma_pow2_adds, lemma_pow2_pos, lemma_pow2_strictly_increases,
    lemma_pow2_unfold, pow2,
};
use vstd::prelude::*;
use vstd::std_specs::cmp::PartialEqSpecImpl;

verus! {

/// The index of infinity among the magnitudes of binary32.
pub const TOP32: u32 = 0x7f80_0000;

/// The index of infinity among the magnitudes of binary64.
pub const TOP64: u64 = 0x7ff0_0000_0000_0000;

/// The sign bit of binary32.
pub const SIGN32: u32 = 0x8000_0000;

/// The sign bit of binary64.
pub const SIGN64: u64 = 0x8000_0000_0000_0000;

/// The magnitude with this index, in units of the smallest positive number.
/// Magnitudes grow by one unit at first, and the step doubles after each
/// `2^(precision - 1)` indices.
pub open spec fn magnitude(precision: nat, index: nat) -> nat {
    let half = pow2((precision - 1) as nat);
    if index < 2 * half {
        index
    } else {
        let shift = (index / half - 1) as nat;
        ((index - shift * half) * pow2(shift)) as nat
    }
}

/// That the magnitude with this index is the one nearest to `n / 2^k` units,
/// with infinity at `top` in the place of the next power of two.
pub open spec fn nearest(precision: nat, top: nat, n: nat, k: nat, index: nat) -> bool {
    &&& index <= top
    &&& index < top ==> {
        let middle = (magnitude(precision, index) + magnitude(precision, index + 1)) * pow2(k);
        2 * n < middle || (2 * n == middle && index % 2 == 0)
    }
    &&& index > 0 ==> {
        let middle = (magnitude(precision, (index - 1) as nat) + magnitude(precision, index))
            * pow2(k);
        2 * n > middle || (2 * n == middle && index % 2 == 0)
    }
}

/// The magnitude at `shift` doublings of the step, `q` steps up.
proof fn lemma_magnitude_at(precision: nat, shift: nat, q: nat)
    requires
        precision >= 2,
        q <= 2 * pow2((precision - 1) as nat),
        shift == 0 || q >= pow2((precision - 1) as nat),
    ensures
        magnitude(precision, shift * pow2((precision - 1) as nat) + q) == q * pow2(shift),
        (shift * pow2((precision - 1) as nat) + q) % 2 == q % 2,
{
    let half = pow2((precision - 1) as nat);
    let index = shift * half + q;
    lemma_pow2_pos((precision - 1) as nat);
    lemma_pow2_unfold((precision - 1) as nat);
    lemma2_to64();
    assert((shift * half + q) % 2 == q % 2) by {
        let quarter = pow2((precision - 2) as nat);
        assert(shift * half == 2 * (shift * quarter)) by (nonlinear_arith)
            requires
                half == 2 * quarter,
        ;
    }
    if index < 2 * half {
        if shift > 0 {
            assert(shift * half >= half) by (nonlinear_arith)
                requires
                    shift >= 1,
                    half > 0,
            ;
            assert(false);
        }
        assert(shift * half == 0) by (nonlinear_arith)
            requires
                shift == 0,
        ;
        assert(q * pow2(0) == q) by (nonlinear_arith)
            requires
                pow2(0) == 1,
        ;
    } else if q == 2 * half {
        assert(index == (shift + 2) * half) by (nonlinear_arith)
            requires
                index == shift * half + q,
                q == 2 * half,
        ;
        assert(index / half == shift + 2) by (nonlinear_arith)
            requires
                index == (shift + 2) * half,
                half > 0,
        ;
        assert((index - (shift + 1) * half) == half) by (nonlinear_arith)
            requires
                index == (shift + 2) * half,
        ;
        lemma_pow2_unfold(shift + 1);
        assert(half * pow2(shift + 1) == q * pow2(shift)) by (nonlinear_arith)
            requires
                pow2(shift + 1) == 2 * pow2(shift),
                q == 2 * half,
        ;
    } else {
        assert(index / half == shift + 1) by (nonlinear_arith)
            requires
                index == shift * half + q,
                half <= q < 2 * half,
                half > 0,
        ;
        assert((index - shift * half) == q);
    }
}

/// Indices and magnitudes have the same order, and neighbours below an index
/// with `shift` doublings are one step or half a step apart.
pub(crate) proof fn lemma_magnitude_step(precision: nat, index: nat) -> (shift: nat)
    requires
        precision >= 2,
    ensures
        magnitude(precision, index + 1) == magnitude(precision, index) + pow2(shift),
        index < 2 * pow2((precision - 1) as nat) ==> shift == 0,
        index >= 2 * pow2((precision - 1) as nat) ==> shift == index / pow2(
            (precision - 1) as nat,
        ) - 1,
{
    let half = pow2((precision - 1) as nat);
    lemma_pow2_pos((precision - 1) as nat);
    lemma2_to64();
    if index < 2 * half {
        assert(0 * half == 0);
        lemma_magnitude_at(precision, 0, index);
        lemma_magnitude_at(precision, 0, index + 1);
        assert(index * pow2(0) == index && (index + 1) * pow2(0) == index + 1) by (nonlinear_arith)
            requires
                pow2(0) == 1,
        ;
        0
    } else {
        let shift = (index / half - 1) as nat;
        let q = (index - shift * half) as nat;
        assert(index / half >= 2) by (nonlinear_arith)
            requires
                index >= 2 * half,
                half > 0,
        ;
        assert(half <= index - (index / half - 1) * half < 2 * half) by (nonlinear_arith)
            requires
                half > 0,
        ;
        lemma_magnitude_at(precision, shift, q);
        lemma_magnitude_at(precision, shift, q + 1);
        assert((q + 1) * pow2(shift) == q * pow2(shift) + pow2(shift)) by (nonlinear_arith);
        shift
    }
}

/// A greater index has a greater magnitude.
pub proof fn lemma_magnitude_increases(precision: nat, a: nat, b: nat)
    requires
        precision >= 2,
        a < b,
    ensures
        magnitude(precision, a) < magnitude(precision, b),
    decreases b,
{
    let shift = lemma_magnitude_step(precision, (b - 1) as nat);
    lemma_pow2_pos(shift);
    if a < b - 1 {
        lemma_magnitude_increases(precision, a, (b - 1) as nat);
    }
}

/// Doubling the count and the divisor alike keeps what is nearest.
pub(crate) proof fn lemma_nearest_scale(
    precision: nat,
    top: nat,
    n: nat,
    k: nat,
    j: nat,
    index: nat,
)
    requires
        nearest(precision, top, n, k, index),
    ensures
        nearest(precision, top, n * pow2(j), k + j, index),
{
    lemma_pow2_adds(k, j);
    lemma_pow2_pos(j);
    let f = pow2(j) as int;
    let a = pow2(k) as int;
    let upper = (magnitude(precision, index) + magnitude(precision, index + 1)) as int;
    assert(2 * (n * f) == (2 * n) * f) by (nonlinear_arith);
    assert(upper * (a * f) == (upper * a) * f) by (nonlinear_arith);
    assert(2 * n < upper * a ==> (2 * n) * f < (upper * a) * f) by (nonlinear_arith)
        requires
            f > 0,
    ;
    if index > 0 {
        let lower = (magnitude(precision, (index - 1) as nat) + magnitude(precision, index)) as int;
        assert(lower * (a * f) == (lower * a) * f) by (nonlinear_arith);
        assert(2 * n > lower * a ==> (2 * n) * f > (lower * a) * f) by (nonlinear_arith)
            requires
                f > 0,
        ;
    }
}

/// A power of two as a number of 128 bits.
pub(crate) fn power(n: u32) -> (r: u128)
    requires
        n < 127,
    ensures
        r == pow2(n as nat),
        1 <= r <= 0x4000_0000_0000_0000_0000_0000_0000_0000,
{
    proof {
        lemma2_to64();
        lemma_pow2_pos(n as nat);
        if n < 64 {
            vstd::bits::lemma_u64_pow2_no_overflow(n as nat);
            vstd::bits::lemma_u64_shl_is_mul(1, n as u64);
        } else {
            vstd::bits::lemma_u64_pow2_no_overflow((n - 64) as nat);
            vstd::bits::lemma_u64_shl_is_mul(1, (n - 64) as u64);
            lemma_pow2_adds((n - 64) as nat, 64);
            lemma_pow2_strictly_increases((n - 64) as nat, 63);
            lemma2_to64_rest();
            if n < 126 {
                lemma_pow2_strictly_increases((n - 64) as nat, 62);
            }
        }
    }
    if n < 64 {
        (1u64 << (n as u64)) as u128
    } else {
        let high: u128 = (1u64 << ((n - 64) as u64)) as u128;
        assert(high <= 0x4000_0000_0000_0000u128);
        high * 0x1_0000_0000_0000_0000u128
    }
}

/// How many bits a number takes.
pub(crate) fn bit_length(n: u128) -> (r: u32)
    requires
        0 < n,
    ensures
        1 <= r <= 128,
        pow2((r - 1) as nat) <= n < pow2(r as nat),
    decreases n,
{
    proof {
        lemma2_to64();
        lemma2_to64_rest();
    }
    if n == 1 {
        return 1;
    }
    let step: u32 = if n >= 0x1_0000_0000_0000_0000u128 {
        64
    } else if n >= 0x1_0000_0000u128 {
        32
    } else if n >= 0x1_0000u128 {
        16
    } else if n >= 0x100u128 {
        8
    } else if n >= 0x10u128 {
        4
    } else {
        1
    };
    let ghost divisor = pow2(step as nat);
    let high: u128 = n >> (step as u128);
    proof {
        vstd::bits::lemma_u128_shr_is_div(n, step as u128);
        assert(pow2(step as nat) <= n);
        assert(0 < n as nat / divisor < n) by (nonlinear_arith)
            requires
                1 < divisor <= n,
        ;
    }
    let rest: u32 = bit_length(high);
    proof {
        let d = divisor as int;
        let low = pow2((rest - 1) as nat) as int;
        let up = pow2(rest as nat) as int;
        lemma_pow2_adds((rest - 1) as nat, step as nat);
        lemma_pow2_adds(rest as nat, step as nat);
        let h = high as int;
        assert(h * d <= n < h * d + d) by (nonlinear_arith)
            requires
                d > 0,
                h == n as int / d,
        ;
        assert(low * d <= h * d && h * d + d <= up * d) by (nonlinear_arith)
            requires
                d > 0,
                low <= h < up,
        ;
        if rest + step > 128 {
            let over = (rest + step - 1) as nat;
            lemma_pow2_adds(64, 64);
            if over > 128 {
                lemma_pow2_strictly_increases(128, over);
            }
            assert(pow2(64) * pow2(64) == 0x1_0000_0000_0000_0000_0000_0000_0000_0000);
            assert(false);
        }
    }
    rest + step
}

/// What [`round`] computes from the quotient `q` is nearest.
proof fn lemma_round(precision: nat, top: nat, n: nat, scale: int, length: nat, shift: nat, q: nat)
    requires
        precision >= 2,
        top >= 1,
        n > 0,
        length >= 1,
        pow2((length - 1) as nat) <= n < pow2(length),
        shift == if length + scale > precision {
            length + scale - precision
        } else {
            0
        },
        ({
            let drop = shift - scale;
            if drop <= 0 {
                q == n * pow2((-drop) as nat)
            } else {
                let d = pow2(drop as nat) as int;
                &&& 2 * n - 2 * (q * d) <= d
                &&& 2 * n - 2 * (q * d) >= -d
                &&& 2 * n - 2 * (q * d) == d ==> q % 2 == 0
                &&& 2 * n - 2 * (q * d) == -d ==> q % 2 == 0
            }
        }),
    ensures
        ({
            let half = pow2((precision - 1) as nat);
            let index = shift * half + q;
            let up = if scale >= 0 {
                scale as nat
            } else {
                0
            };
            let down = if scale >= 0 {
                0
            } else {
                (-scale) as nat
            };
            &&& q <= 2 * half
            &&& nearest(precision, top, n * pow2(up), down, if index > top {
                top
            } else {
                index
            })
        }),
{
    let half = pow2((precision - 1) as nat);
    let index = (shift * half + q) as nat;
    let up: nat = if scale >= 0 {
        scale as nat
    } else {
        0
    };
    let down: nat = if scale >= 0 {
        0
    } else {
        (-scale) as nat
    };
    let count = n * pow2(up);
    let u = pow2(shift) as int;
    let k = pow2(down) as int;
    let drop = shift - scale;
    lemma2_to64();
    lemma_pow2_pos(shift);
    lemma_pow2_pos(down);
    lemma_pow2_pos(up);
    lemma_pow2_pos((precision - 1) as nat);
    lemma_pow2_unfold(precision);
    let p = half as int;
    // The count against the quotient, both in the same units.
    let gap = 2 * count - 2 * (q * u * k);
    assert(gap <= u * k && gap >= -(u * k) && (gap == u * k ==> q % 2 == 0) && (gap == -(u * k)
        ==> q % 2 == 0)) by {
        if drop <= 0 {
            lemma_pow2_adds((-drop) as nat, shift);
            assert(q * u * k == q * u) by (nonlinear_arith)
                requires
                    k == 1,
            ;
            assert(n * (pow2((-drop) as nat) * u) == n * pow2((-drop) as nat) * u)
                by (nonlinear_arith);
            assert(gap == 0);
            assert(u * k > 0) by (nonlinear_arith)
                requires
                    u > 0,
                    k > 0,
            ;
        } else {
            let d = pow2(drop as nat) as int;
            let c = pow2(up) as int;
            assert(u * k == d * c) by {
                if scale >= 0 {
                    lemma_pow2_adds(drop as nat, up);
                    assert(u * 1 == u) by (nonlinear_arith);
                } else {
                    lemma_pow2_adds(shift, down);
                    assert(d * 1 == d) by (nonlinear_arith);
                }
            }
            let g = 2 * n - 2 * (q * d);
            assert(gap == g * c) by (nonlinear_arith)
                requires
                    gap == 2 * (n * c) - 2 * (q * u * k),
                    u * k == d * c,
                    g == 2 * n - 2 * (q * d),
            ;
            assert(g <= d ==> g * c <= d * c) by (nonlinear_arith)
                requires
                    c > 0,
            ;
            assert(g >= -d ==> g * c >= -(d * c)) by (nonlinear_arith)
                requires
                    c > 0,
            ;
            assert(g * c == d * c ==> g == d) by (nonlinear_arith)
                requires
                    c > 0,
            ;
            assert(g * c == -(d * c) ==> g == -d) by (nonlinear_arith)
                requires
                    c > 0,
            ;
        }
    }
    // How large the quotient is.
    assert(q <= 2 * p && (shift > 0 ==> q >= p && count >= p * u * k)) by {
        if drop <= 0 {
            if shift > 0 {
                lemma_pow2_adds((length - 1) as nat, (-drop) as nat);
                assert(q >= pow2((length - 1) as nat) * pow2((-drop) as nat)) by (nonlinear_arith)
                    requires
                        q == n * pow2((-drop) as nat),
                        n >= pow2((length - 1) as nat),
                ;
                assert(length - 1 - drop == precision - 1);
                lemma_pow2_adds((-drop) as nat, shift);
                assert(q * u * k == n * pow2((-drop) as nat) * u) by (nonlinear_arith)
                    requires
                        k == 1,
                        q == n * pow2((-drop) as nat),
                ;
                assert(n * (pow2((-drop) as nat) * u) == n * pow2((-drop) as nat) * u)
                    by (nonlinear_arith);
                assert(count == q * u * k);
                assert(q * u * k >= p * u * k) by (nonlinear_arith)
                    requires
                        q >= p,
                        u > 0,
                        k > 0,
                ;
            }
            lemma_pow2_adds(length, (-drop) as nat);
            lemma_pow2_pos((-drop) as nat);
            assert(q < pow2(length) * pow2((-drop) as nat)) by (nonlinear_arith)
                requires
                    q == n * pow2((-drop) as nat),
                    n < pow2(length),
                    pow2((-drop) as nat) > 0,
            ;
            if length - drop < precision {
                lemma_pow2_strictly_increases((length - drop) as nat, precision);
            }
        } else {
            let d = pow2(drop as nat) as int;
            lemma_pow2_pos(drop as nat);
            // n < 2^length <= 2p * d
            if length <= drop {
                if length < drop {
                    lemma_pow2_strictly_increases(length, drop as nat);
                }
                assert(n < 2 * p * d) by (nonlinear_arith)
                    requires
                        n < d,
                        p >= 1,
                        d > 0,
                ;
            } else {
                lemma_pow2_adds((length - drop) as nat, drop as nat);
                if length - drop < precision {
                    lemma_pow2_strictly_increases((length - drop) as nat, precision);
                }
                assert(pow2((length - drop) as nat) * d <= (2 * p) * d) by (nonlinear_arith)
                    requires
                        pow2((length - drop) as nat) <= 2 * p,
                        d > 0,
                ;
            }
            if q > 2 * p {
                assert(2 * (q * d) >= 2 * (2 * p * d) + 2 * d) by (nonlinear_arith)
                    requires
                        q >= 2 * p + 1,
                        d > 0,
                ;
                assert(false);
            }
            if shift > 0 {
                assert(length == drop + precision);
                lemma_pow2_adds((precision - 1) as nat, drop as nat);
                assert(n >= p * d);
                if q < p {
                    assert(2 * (q * d) <= 2 * (p * d) - 2 * d) by (nonlinear_arith)
                        requires
                            q <= p - 1,
                            d > 0,
                    ;
                    assert(false);
                }
                let c = pow2(up) as int;
                assert(u * k == d * c) by {
                    if scale >= 0 {
                        lemma_pow2_adds(drop as nat, up);
                        assert(u * 1 == u) by (nonlinear_arith);
                    } else {
                        lemma_pow2_adds(shift, down);
                        assert(d * 1 == d) by (nonlinear_arith);
                    }
                }
                assert(n * c >= p * u * k) by (nonlinear_arith)
                    requires
                        n >= p * d,
                        u * k == d * c,
                        c > 0,
                ;
            }
        }
    }
    lemma_magnitude_at(precision, shift, q);
    let m = magnitude(precision, index) as int;
    assert(m == q * u);
    // Above.
    let s = lemma_magnitude_step(precision, index);
    assert(pow2(s) >= u) by {
        if s != shift {
            if index < 2 * half {
                assert(shift == 0) by {
                    if shift > 0 {
                        assert(shift * half + q >= 2 * half) by (nonlinear_arith)
                            requires
                                shift >= 1,
                                q >= half,
                        ;
                    }
                }
            } else {
                assert(index / half >= shift + 1) by {
                    if shift == 0 {
                        assert(index / half >= 1) by (nonlinear_arith)
                            requires
                                index >= 2 * half,
                                half > 0,
                        ;
                    } else {
                        assert(index / half >= shift + 1) by (nonlinear_arith)
                            requires
                                index == shift * half + q,
                                q >= half,
                                half > 0,
                        ;
                    }
                }
                if s > shift {
                    lemma_pow2_strictly_increases(shift, s);
                }
            }
        }
    }
    let above = magnitude(precision, index + 1) as int;
    assert(2 * count <= (m + above) * k && (2 * count == (m + above) * k ==> q % 2 == 0)) by {
        assert((m + above) * k >= 2 * (q * u * k) + u * k && ((m + above) * k == 2 * (q * u * k) + u
            * k || (m + above) * k > 2 * (q * u * k) + u * k)) by (nonlinear_arith)
            requires
                m == q * u,
                above >= m + u,
                k > 0,
        ;
    }
    // Below.
    if index > 0 {
        let below = magnitude(precision, (index - 1) as nat) as int;
        if shift > 0 && q == p {
            lemma_magnitude_increases(precision, (index - 1) as nat, index);
            assert((below + m) * k < 2 * (p * u * k)) by (nonlinear_arith)
                requires
                    below < m,
                    m == p * u,
                    k > 0,
            ;
            assert(2 * count > (below + m) * k);
        } else {
            assert(q > 0) by {
                if q == 0 {
                    assert(shift * half == 0) by (nonlinear_arith)
                        requires
                            shift == 0,
                    ;
                }
            }
            lemma_magnitude_at(precision, shift, (q - 1) as nat);
            assert(below == (q - 1) * u);
            assert((below + m) * k == 2 * (q * u * k) - u * k) by (nonlinear_arith)
                requires
                    below == (q - 1) * u,
                    m == q * u,
            ;
            assert(2 * count >= (below + m) * k);
            assert(2 * count == (below + m) * k ==> q % 2 == 0);
        }
        if index > top {
            lemma_magnitude_increases(precision, (top - 1) as nat, (index - 1) as nat);
            lemma_magnitude_increases(precision, top, index);
            let at_top = (magnitude(precision, (top - 1) as nat) + magnitude(
                precision,
                top,
            )) as int;
            assert(at_top * k < (below + m) * k) by (nonlinear_arith)
                requires
                    at_top < below + m,
                    k > 0,
            ;
        }
    }
}

/// The index of the magnitude nearest to `n * 2^scale` units.
pub(crate) fn round(precision: u32, top: u64, n: u128, scale: i32) -> (index: u64)
    requires
        precision == 24 || precision == 53,
        1 <= top,
        n < pow2(120),
        -4000 <= scale <= 3500,
    ensures
        nearest(
            precision as nat,
            top as nat,
            n as nat * pow2(
                if scale >= 0 {
                    scale as nat
                } else {
                    0
                },
            ),
            if scale >= 0 {
                0
            } else {
                (-scale) as nat
            },
            index as nat,
        ),
{
    proof {
        lemma2_to64();
        lemma2_to64_rest();
    }
    if n == 0 {
        proof {
            let k = if scale >= 0 {
                0nat
            } else {
                (-scale) as nat
            };
            lemma_pow2_pos(k);
            assert(0nat * pow2(
                if scale >= 0 {
                    scale as nat
                } else {
                    0nat
                },
            ) == 0) by (nonlinear_arith);
            assert(0 * pow2((precision - 1) as nat) == 0);
            lemma_magnitude_at(precision as nat, 0, 0);
            lemma_magnitude_at(precision as nat, 0, 1);
            assert((0 + 1 * pow2(0)) * pow2(k) > 0) by (nonlinear_arith)
                requires
                    pow2(k) > 0,
                    pow2(0) == 1,
            ;
        }
        return 0;
    }
    let length: u32 = bit_length(n);
    proof {
        if length > 120 {
            if length - 1 > 120 {
                lemma_pow2_strictly_increases(120, (length - 1) as nat);
            }
            assert(false);
        }
    }
    let shift: i32 = if (length as i32) + scale > (precision as i32) {
        (length as i32) + scale - (precision as i32)
    } else {
        0
    };
    let drop: i32 = shift - scale;
    let q: u64 = if drop <= 0 {
        proof {
            lemma_pow2_adds(length as nat, (-drop) as nat);
            lemma_pow2_pos((-drop) as nat);
            assert(n * pow2((-drop) as nat) < pow2(length as nat) * pow2((-drop) as nat))
                by (nonlinear_arith)
                requires
                    n < pow2(length as nat),
                    pow2((-drop) as nat) > 0,
            ;
            if length - drop < 53 {
                lemma_pow2_strictly_increases((length - drop) as nat, 53);
            }
            assert(n * pow2((-drop) as nat) < pow2(53));
        }
        let factor: u128 = power((-drop) as u32);
        (n * factor) as u64
    } else if drop >= 124 {
        proof {
            lemma_pow2_adds(120, 1);
            if drop > 121 {
                lemma_pow2_strictly_increases(121, drop as nat);
            }
            assert(0 * pow2(drop as nat) == 0);
        }
        0
    } else {
        let d: u128 = power(drop as u32);
        let a: u128 = n >> (drop as u128);
        proof {
            vstd::bits::lemma_u128_shr_is_div(n, drop as u128);
            assert(a * d <= n < a * d + d) by (nonlinear_arith)
                requires
                    d > 0,
                    a == n / d,
            ;
        }
        let r: u128 = n - a * d;
        let up: bool = 2 * r > d || (2 * r == d && a % 2 == 1);
        proof {
            assert(n == a * d + r && r < d) by (nonlinear_arith)
                requires
                    d > 0,
                    a == n / d,
                    r == n - a * d,
            ;
            assert((a + 1) * d == a * d + d) by (nonlinear_arith);
            lemma_pow2_unfold(drop as nat);
            assert(d % 2 == 0);
            // The quotient is small.
            if length as int <= drop {
                if (length as int) < drop {
                    lemma_pow2_strictly_increases(length as nat, drop as nat);
                }
                assert(a == 0) by (nonlinear_arith)
                    requires
                        a == n / d,
                        n < d,
                ;
            } else {
                lemma_pow2_adds((length - drop) as nat, drop as nat);
                assert(a < pow2((length - drop) as nat)) by (nonlinear_arith)
                    requires
                        a == n / d,
                        n < pow2((length - drop) as nat) * d,
                        d > 0,
                ;
                if length - drop < 53 {
                    lemma_pow2_strictly_increases((length - drop) as nat, 53);
                }
            }
            assert(a < pow2(53));
        }
        if up {
            (a + 1) as u64
        } else {
            a as u64
        }
    };
    proof {
        lemma_round(
            precision as nat,
            top as nat,
            n as nat,
            scale as int,
            length as nat,
            shift as nat,
            q as nat,
        );
        lemma_pow2_strictly_increases(23, 52);
    }
    let half: u64 = if precision == 24 {
        0x80_0000
    } else {
        0x10_0000_0000_0000
    };
    proof {
        assert(shift as int * half as int <= 3600 * 0x10_0000_0000_0000) by (nonlinear_arith)
            requires
                0 <= shift <= 3600,
                0 <= half <= 0x10_0000_0000_0000,
        ;
    }
    let index: u64 = (shift as u64) * half + q;
    if index > top {
        top
    } else {
        index
    }
}

/// A format: binary32 or binary64.
pub open spec fn is_format(precision: nat, top: nat) -> bool {
    (precision == 24 && top == TOP32) || (precision == 53 && top == TOP64)
}

/// The number with this sign and index, in units.
pub open spec fn signed(precision: nat, negative: bool, index: nat) -> int {
    if negative {
        -(magnitude(precision, index) as int)
    } else {
        magnitude(precision, index) as int
    }
}

/// The index of the one bit pattern that arithmetic gives for a result that is
/// no number.
pub open spec fn quiet(precision: nat) -> nat {
    if precision == 24 {
        0x7fc0_0000
    } else {
        0x7ff8_0000_0000_0000
    }
}

/// That a sign and an index are the sum of two numbers, each given by its sign
/// and index. An index above `top` is not a number.
pub open spec fn is_sum(
    precision: nat,
    top: nat,
    a: (bool, nat),
    b: (bool, nat),
    r: (bool, nat),
) -> bool {
    if a.1 > top || b.1 > top || (a.1 == top && b.1 == top && a.0 != b.0) {
        r == (false, quiet(precision))
    } else if a.1 == top {
        r == a
    } else if b.1 == top {
        r == b
    } else {
        let sum = signed(precision, a.0, a.1) + signed(precision, b.0, b.1);
        &&& nearest(
            precision,
            top,
            if sum < 0 {
                (-sum) as nat
            } else {
                sum as nat
            },
            0,
            r.1,
        )
        &&& r.0 == (sum < 0 || (sum == 0 && a.0 && b.0))
    }
}

/// That a sign and an index are the product of two numbers, where one is
/// `2^unit` units.
pub open spec fn is_product(
    precision: nat,
    top: nat,
    unit: nat,
    a: (bool, nat),
    b: (bool, nat),
    r: (bool, nat),
) -> bool {
    if a.1 > top || b.1 > top || (a.1 == top && b.1 == 0) || (a.1 == 0 && b.1 == top) {
        r == (false, quiet(precision))
    } else {
        &&& r.0 == (a.0 != b.0)
        &&& if a.1 == top || b.1 == top {
            r.1 == top
        } else {
            nearest(
                precision,
                top,
                magnitude(precision, a.1) * magnitude(precision, b.1),
                unit,
                r.1,
            )
        }
    }
}

/// At most one magnitude is nearest.
pub proof fn lemma_nearest_unique(precision: nat, top: nat, n: nat, k: nat, i: nat, j: nat)
    requires
        precision >= 2,
        nearest(precision, top, n, k, i),
        nearest(precision, top, n, k, j),
    ensures
        i == j,
{
    lemma_nearest_order(precision, top, n, k, i, j);
    lemma_nearest_order(precision, top, n, k, j, i);
}

/// Of two indices that are nearest, neither is less.
proof fn lemma_nearest_order(precision: nat, top: nat, n: nat, k: nat, i: nat, j: nat)
    requires
        precision >= 2,
        nearest(precision, top, n, k, i),
        nearest(precision, top, n, k, j),
    ensures
        i >= j,
{
    let f = pow2(k) as int;
    lemma_pow2_pos(k);
    let upper = (magnitude(precision, i) + magnitude(precision, i + 1)) as int;
    let lower = (magnitude(precision, (j - 1) as nat) + magnitude(precision, j)) as int;
    if i + 1 < j {
        lemma_magnitude_increases(precision, i, (j - 1) as nat);
        lemma_magnitude_increases(precision, i + 1, j);
        assert(upper * f < lower * f) by (nonlinear_arith)
            requires
                upper < lower,
                f > 0,
        ;
    } else if i < j {
        assert(upper == lower);
        assert(i % 2 == 0 && j % 2 == 0);
    }
}

/// At most one sign and index are a sum.
pub proof fn lemma_sum_unique(
    precision: nat,
    top: nat,
    a: (bool, nat),
    b: (bool, nat),
    r: (bool, nat),
    t: (bool, nat),
)
    requires
        precision >= 2,
        is_sum(precision, top, a, b, r),
        is_sum(precision, top, a, b, t),
    ensures
        r == t,
{
    if a.1 < top && b.1 < top {
        let sum = signed(precision, a.0, a.1) + signed(precision, b.0, b.1);
        let size = if sum < 0 {
            (-sum) as nat
        } else {
            sum as nat
        };
        lemma_nearest_unique(precision, top, size, 0, r.1, t.1);
    }
}

/// At most one sign and index are a product.
pub proof fn lemma_product_unique(
    precision: nat,
    top: nat,
    unit: nat,
    a: (bool, nat),
    b: (bool, nat),
    r: (bool, nat),
    t: (bool, nat),
)
    requires
        precision >= 2,
        is_product(precision, top, unit, a, b, r),
        is_product(precision, top, unit, a, b, t),
    ensures
        r == t,
{
    if a.1 < top && b.1 < top {
        lemma_nearest_unique(
            precision,
            top,
            magnitude(precision, a.1) * magnitude(precision, b.1),
            unit,
            r.1,
            t.1,
        );
    }
}

/// A finite magnitude as a significand and a power of two.
pub(crate) fn decompose(precision: u32, top: u64, index: u64) -> (r: (u64, u32))
    requires
        is_format(precision as nat, top as nat),
        index < top,
    ensures
        magnitude(precision as nat, index as nat) == r.0 * pow2(r.1 as nat),
        r.0 < pow2(precision as nat),
        r.0 < 0x20_0000_0000_0000,
        r.1 <= 2045,
        precision == 24 ==> r.1 <= 253,
        r.1 > 0 ==> r.0 >= pow2((precision - 1) as nat),
        r.1 > 0 ==> r.1 == index as nat / pow2((precision - 1) as nat) - 1,
        r.1 == 0 <==> index < 2 * pow2((precision - 1) as nat),
        r.0 == 0 <==> index == 0,
{
    proof {
        lemma2_to64();
        lemma2_to64_rest();
    }
    let half: u64 = if precision == 24 {
        0x80_0000
    } else {
        0x10_0000_0000_0000
    };
    if index < 2 * half {
        assert(index * pow2(0) == index) by (nonlinear_arith)
            requires
                pow2(0) == 1,
        ;
        (index, 0)
    } else {
        let shift: u64 = index / half - 1;
        proof {
            assert(shift >= 1 && half <= index - shift * half < 2 * half && shift * half <= index)
                by (nonlinear_arith)
                requires
                    index >= 2 * half,
                    half > 0,
                    shift == index / half - 1,
            ;
            assert(precision == 53 ==> index / half <= 2046) by {
                assert(precision == 53 ==> half == 0x10_0000_0000_0000);
            }
            assert(precision == 24 ==> index / half <= 254);
        }
        (index - shift * half, shift as u32)
    }
}

/// Adds two numbers given by their signs and indices.
fn add_parts(precision: u32, top: u64, a: (bool, u64), b: (bool, u64)) -> (r: (bool, u64))
    requires
        is_format(precision as nat, top as nat),
    ensures
        is_sum(
            precision as nat,
            top as nat,
            (a.0, a.1 as nat),
            (b.0, b.1 as nat),
            (r.0, r.1 as nat),
        ),
        precision == 24 ==> r.1 <= 0x7fc0_0000,
        precision == 53 ==> r.1 <= 0x7ff8_0000_0000_0000,
{
    let quiet: u64 = if precision == 24 {
        0x7fc0_0000
    } else {
        0x7ff8_0000_0000_0000
    };
    if a.1 > top || b.1 > top || (a.1 == top && b.1 == top && a.0 != b.0) {
        return (false, quiet);
    }
    if a.1 == top {
        return a;
    }
    if b.1 == top {
        return b;
    }
    if a.1 >= b.1 {
        add_finite(precision, top, a, b)
    } else {
        add_finite(precision, top, b, a)
    }
}

/// Adds two finite numbers, the one of greater magnitude first.
fn add_finite(precision: u32, top: u64, a: (bool, u64), b: (bool, u64)) -> (r: (bool, u64))
    requires
        is_format(precision as nat, top as nat),
        b.1 <= a.1 < top,
    ensures
        is_sum(
            precision as nat,
            top as nat,
            (a.0, a.1 as nat),
            (b.0, b.1 as nat),
            (r.0, r.1 as nat),
        ),
        is_sum(
            precision as nat,
            top as nat,
            (b.0, b.1 as nat),
            (a.0, a.1 as nat),
            (r.0, r.1 as nat),
        ),
        r.1 <= top,
{
    let (ma, sa) = decompose(precision, top, a.1);
    let (mb, sb) = decompose(precision, top, b.1);
    let ghost p = precision as nat;
    let ghost half = pow2((p - 1) as nat);
    let ghost va = magnitude(p, a.1 as nat);
    let ghost vb = magnitude(p, b.1 as nat);
    proof {
        lemma2_to64();
        lemma2_to64_rest();
        lemma_pow2_pos((p - 1) as nat);
        if b.1 < a.1 {
            lemma_magnitude_increases(p, b.1 as nat, a.1 as nat);
        }
        assert(vb <= va);
        if sb > sa {
            assert(b.1 as nat / half <= a.1 as nat / half) by (nonlinear_arith)
                requires
                    b.1 <= a.1,
                    half > 0,
            ;
        }
        assert(sb <= sa);
    }
    let gap: u32 = sa - sb;
    if gap >= 60 {
        proof {
            let i = a.1 as nat;
            let below = (i - 1) as nat;
            let up = lemma_magnitude_step(p, i);
            let down = lemma_magnitude_step(p, below);
            assert(up == sa);
            // Half a step is far more than the smaller number.
            assert(pow2(down) * 2 >= pow2(up)) by {
                if below < 2 * half {
                    assert(i == 2 * half);
                    assert((2 * half) / half == 2) by (nonlinear_arith)
                        requires
                            half > 0,
                    ;
                    assert(up == 1);
                } else {
                    assert(below / half >= i / half - 1) by (nonlinear_arith)
                        requires
                            below == i - 1,
                            half > 0,
                    ;
                    lemma_pow2_unfold(up);
                    if down as int > up - 1 {
                        lemma_pow2_strictly_increases((up - 1) as nat, down);
                    }
                }
            }
            lemma_pow2_adds(sb as nat, 60);
            if sa > sb + 60 {
                lemma_pow2_strictly_increases((sb + 60) as nat, sa as nat);
            }
            lemma_pow2_pos(sb as nat);
            let small = pow2(sb as nat);
            assert(16 * vb < pow2(up)) by {
                if p == 24 {
                    assert(pow2(24) <= 0x20_0000_0000_0000);
                }
                assert(16 * (mb * small) < small * pow2(60)) by (nonlinear_arith)
                    requires
                        mb < 0x20_0000_0000_0000,
                        small > 0,
                        pow2(60) == 0x1000_0000_0000_0000,
                ;
            }
            let sum = signed(p, a.0, a.1 as nat) + signed(p, b.0, b.1 as nat);
            let upper = va + magnitude(p, i + 1);
            let lower = magnitude(p, below) + va;
            assert(upper * pow2(0) == upper && lower * pow2(0) == lower) by (nonlinear_arith)
                requires
                    pow2(0) == 1,
            ;
            assert(va > vb) by {
                lemma_pow2_pos(up);
                assert(va >= pow2(up)) by (nonlinear_arith)
                    requires
                        va == ma * pow2(up),
                        ma >= 1,
                ;
            }
        }
        return a;
    }
    let wide: u128 = power(gap);
    proof {
        assert(wide <= 0x800_0000_0000_0000) by {
            if gap < 59 {
                lemma_pow2_strictly_increases(gap as nat, 59);
            }
        }
        assert(ma * wide < 0x20_0000_0000_0000 * 0x800_0000_0000_0000) by (nonlinear_arith)
            requires
                0 <= ma < 0x20_0000_0000_0000,
                0 < wide <= 0x800_0000_0000_0000,
        ;
    }
    let high: u128 = (ma as u128) * wide;
    let low: u128 = mb as u128;
    let ghost unit = pow2(sb as nat);
    proof {
        lemma_pow2_adds(gap as nat, sb as nat);
        lemma_pow2_pos(sb as nat);
        assert(ma * (pow2(gap as nat) * unit) == ma * pow2(gap as nat) * unit) by (nonlinear_arith);
        assert(va == high * unit && vb == low * unit);
        assert(high >= low) by (nonlinear_arith)
            requires
                high * unit >= low * unit,
                unit > 0,
        ;
        lemma_pow2_adds(53, 60);
        lemma_pow2_strictly_increases(114, 120);
        lemma_pow2_unfold(114);
    }
    let count: u128 = if a.0 == b.0 {
        high + low
    } else {
        high - low
    };
    let index: u64 = round(precision, top, count, sb as i32);
    let negative: bool = if count == 0 {
        a.0 && b.0
    } else {
        a.0
    };
    proof {
        let sum = signed(p, a.0, a.1 as nat) + signed(p, b.0, b.1 as nat);
        let size = if sum < 0 {
            -sum
        } else {
            sum
        };
        assert(size == count * unit) by {
            if a.0 == b.0 {
                assert((high + low) * unit == high * unit + low * unit) by (nonlinear_arith);
            } else {
                assert((high - low) * unit == high * unit - low * unit) by (nonlinear_arith);
            }
        }
        assert(count == 0 <==> size == 0) by (nonlinear_arith)
            requires
                size == count * unit,
                unit > 0,
        ;
    }
    (negative, index)
}

/// Multiplies two numbers given by their signs and indices.
fn multiply_parts(precision: u32, top: u64, unit: u32, a: (bool, u64), b: (bool, u64)) -> (r: (
    bool,
    u64,
))
    requires
        is_format(precision as nat, top as nat),
        unit == if precision == 24 {
            149nat
        } else {
            1074
        },
    ensures
        is_product(
            precision as nat,
            top as nat,
            unit as nat,
            (a.0, a.1 as nat),
            (b.0, b.1 as nat),
            (r.0, r.1 as nat),
        ),
        precision == 24 ==> r.1 <= 0x7fc0_0000,
        precision == 53 ==> r.1 <= 0x7ff8_0000_0000_0000,
{
    let quiet: u64 = if precision == 24 {
        0x7fc0_0000
    } else {
        0x7ff8_0000_0000_0000
    };
    if a.1 > top || b.1 > top || (a.1 == top && b.1 == 0) || (a.1 == 0 && b.1 == top) {
        return (false, quiet);
    }
    let negative: bool = a.0 != b.0;
    if a.1 == top || b.1 == top {
        return (negative, top);
    }
    let (ma, sa) = decompose(precision, top, a.1);
    let (mb, sb) = decompose(precision, top, b.1);
    proof {
        assert(ma * mb < 0x20_0000_0000_0000 * 0x20_0000_0000_0000) by (nonlinear_arith)
            requires
                0 <= ma < 0x20_0000_0000_0000,
                0 <= mb < 0x20_0000_0000_0000,
        ;
        lemma2_to64();
        lemma2_to64_rest();
        lemma_pow2_adds(53, 53);
        lemma_pow2_strictly_increases(106, 120);
    }
    let n: u128 = (ma as u128) * (mb as u128);
    let scale: i32 = (sa as i32) + (sb as i32) - (unit as i32);
    let index: u64 = round(precision, top, n, scale);
    proof {
        let p = precision as nat;
        let t = top as nat;
        let both = (sa + sb) as nat;
        let product = magnitude(p, a.1 as nat) * magnitude(p, b.1 as nat);
        lemma_pow2_adds(sa as nat, sb as nat);
        assert((ma * pow2(sa as nat)) * (mb * pow2(sb as nat)) == (ma * mb) * (pow2(sa as nat)
            * pow2(sb as nat))) by (nonlinear_arith);
        assert(product == n * pow2(both));
        if scale >= 0 {
            lemma_nearest_scale(p, t, n as nat * pow2(scale as nat), 0, unit as nat, index as nat);
            lemma_pow2_adds(scale as nat, unit as nat);
            assert(n * (pow2(scale as nat) * pow2(unit as nat)) == n * pow2(scale as nat) * pow2(
                unit as nat,
            )) by (nonlinear_arith);
        } else {
            assert(n as nat * pow2(0) == n) by (nonlinear_arith)
                requires
                    pow2(0) == 1,
            ;
            lemma_nearest_scale(p, t, n as nat, (-scale) as nat, both, index as nat);
        }
    }
    (negative, index)
}

/// A binary32 number by its bits. In programs `==` compares values: zero equals its
/// opposite, and what is not a number equals nothing. In contracts `==` compares bits.
#[derive(Debug, Clone, Copy)]
pub struct F32 {
    pub bits: u32,
}

/// A binary64 number by its bits. In programs `==` compares values: zero equals its
/// opposite, and what is not a number equals nothing. In contracts `==` compares bits.
#[derive(Debug, Clone, Copy)]
pub struct F64 {
    pub bits: u64,
}

impl PartialEq for F32 {
    fn eq(&self, other: &Self) -> (r: bool) {
        let (a, i) = self.split();
        let (b, j) = other.split();
        i <= TOP32 as u64 && j <= TOP32 as u64 && i == j && (a == b || i == 0)
    }
}

impl PartialEqSpecImpl for F32 {
    open spec fn obeys_eq_spec() -> bool {
        true
    }

    open spec fn eq_spec(&self, other: &Self) -> bool {
        self.equals(*other)
    }
}

impl PartialEq for F64 {
    fn eq(&self, other: &Self) -> (r: bool) {
        let (a, i) = self.split();
        let (b, j) = other.split();
        i <= TOP64 && j <= TOP64 && i == j && (a == b || i == 0)
    }
}

impl PartialEqSpecImpl for F64 {
    open spec fn obeys_eq_spec() -> bool {
        true
    }

    open spec fn eq_spec(&self, other: &Self) -> bool {
        self.equals(*other)
    }
}

impl F32 {
    /// Whether the sign bit is set.
    pub open spec fn negative(self) -> bool {
        self.bits >= SIGN32
    }

    /// The bits below the sign.
    pub open spec fn index(self) -> nat {
        if self.negative() {
            (self.bits - SIGN32) as nat
        } else {
            self.bits as nat
        }
    }

    /// Sign and index.
    pub open spec fn parts(self) -> (bool, nat) {
        (self.negative(), self.index())
    }

    /// Whether this is a number, and not an infinity.
    pub open spec fn finite(self) -> bool {
        self.index() < TOP32
    }

    /// Whether this is not a number.
    pub open spec fn nan(self) -> bool {
        self.index() > TOP32
    }

    /// Whether two are equal numbers.
    pub open spec fn equals(self, other: F32) -> bool {
        &&& !self.nan() && !other.nan()
        &&& self.index() == other.index()
        &&& self.negative() == other.negative() || self.index() == 0
    }

    /// A finite number in units of 2^-149.
    pub open spec fn value(self) -> int {
        signed(24, self.negative(), self.index())
    }

    /// The rounded sum.
    pub open spec fn sum(self, other: F32) -> F32 {
        choose|r: F32| #[trigger]
            is_sum(24, TOP32 as nat, self.parts(), other.parts(), r.parts())
    }

    /// The rounded product.
    pub open spec fn product(self, other: F32) -> F32 {
        choose|r: F32| #[trigger]
            is_product(24, TOP32 as nat, 149, self.parts(), other.parts(), r.parts())
    }

    /// The number with the other sign.
    pub open spec fn opposite(self) -> F32 {
        F32 {
            bits: if self.negative() {
                (self.bits - SIGN32) as u32
            } else {
                (self.bits + SIGN32) as u32
            },
        }
    }

    /// That this is an integer, rounded.
    pub open spec fn is_int(self, n: int) -> bool {
        &&& self.negative() == (n < 0)
        &&& nearest(
            24,
            TOP32 as nat,
            if n < 0 {
                (-n) as nat
            } else {
                n as nat
            } * pow2(149),
            0,
            self.index(),
        )
    }

    /// An integer, rounded.
    pub open spec fn of_int(n: int) -> F32 {
        choose|r: F32| r.is_int(n)
    }

    /// That a binary64 number is this number. A binary32 unit is 2^925 binary64
    /// units.
    pub open spec fn is_widened(self, r: F64) -> bool {
        if self.nan() {
            r.bits == 0x7ff8_0000_0000_0000
        } else {
            &&& r.negative() == self.negative()
            &&& if self.finite() {
                &&& r.finite()
                &&& magnitude(53, r.index()) == magnitude(24, self.index()) * pow2(925)
            } else {
                r.index() == TOP64
            }
        }
    }

    /// The same number as binary64.
    pub open spec fn widened(self) -> F64 {
        choose|r: F64| self.is_widened(r)
    }

    pub(crate) proof fn lemma_parts_injective(a: F32, b: F32)
        requires
            a.parts() == b.parts(),
        ensures
            a == b,
    {
    }

    pub(crate) fn split(self) -> (r: (bool, u64))
        ensures
            r.0 == self.negative(),
            r.1 == self.index(),
            r.1 < SIGN32,
    {
        if self.bits >= SIGN32 {
            (true, (self.bits - SIGN32) as u64)
        } else {
            (false, self.bits as u64)
        }
    }

    pub(crate) fn join(parts: (bool, u64)) -> (r: F32)
        requires
            parts.1 < SIGN32,
        ensures
            r.negative() == parts.0,
            r.index() == parts.1,
    {
        if parts.0 {
            F32 { bits: SIGN32 + (parts.1 as u32) }
        } else {
            F32 { bits: parts.1 as u32 }
        }
    }

    /// Whether this is a number, and not an infinity.
    pub fn is_finite(self) -> (r: bool)
        ensures
            r == self.finite(),
    {
        self.split().1 < TOP32 as u64
    }

    /// Whether this is not a number.
    pub fn is_nan(self) -> (r: bool)
        ensures
            r == self.nan(),
    {
        self.split().1 > TOP32 as u64
    }

    /// Whether the sign bit is set.
    pub fn is_negative(self) -> (r: bool)
        ensures
            r == self.negative(),
    {
        self.bits >= SIGN32
    }

    /// Whether this is greater than zero.
    pub fn is_positive(self) -> (r: bool)
        ensures
            r == (!self.nan() && !self.negative() && self.index() > 0),
    {
        let (negative, index) = self.split();
        !negative && 0 < index && index <= TOP32 as u64
    }

    /// Whether this is a number not below zero.
    pub fn is_nonnegative(self) -> (r: bool)
        ensures
            r == (!self.nan() && (self.index() == 0 || !self.negative())),
    {
        let (negative, index) = self.split();
        index == 0 || (!negative && index <= TOP32 as u64)
    }

    /// Whether this equals zero, of either sign.
    pub fn is_zero(self) -> (r: bool)
        ensures
            r == (self.index() == 0),
    {
        self.split().1 == 0
    }

    /// The sum, rounded.
    pub fn plus(self, other: F32) -> (r: F32)
        ensures
            is_sum(24, TOP32 as nat, self.parts(), other.parts(), r.parts()),
            r == self.sum(other),
    {
        let r: F32 = F32::join(add_parts(24, TOP32 as u64, self.split(), other.split()));
        proof {
            let t = self.sum(other);
            lemma_sum_unique(24, TOP32 as nat, self.parts(), other.parts(), r.parts(), t.parts());
            F32::lemma_parts_injective(r, t);
        }
        r
    }

    /// The number with the other sign.
    pub fn negated(self) -> (r: F32)
        ensures
            r == self.opposite(),
            r.negative() == !self.negative(),
            r.index() == self.index(),
    {
        let (negative, index) = self.split();
        F32::join((!negative, index))
    }

    /// The product, rounded.
    pub fn times(self, other: F32) -> (r: F32)
        ensures
            is_product(24, TOP32 as nat, 149, self.parts(), other.parts(), r.parts()),
            r == self.product(other),
    {
        let r: F32 = F32::join(
            multiply_parts(24, TOP32 as u64, 149, self.split(), other.split()),
        );
        proof {
            let t = self.product(other);
            lemma_product_unique(
                24,
                TOP32 as nat,
                149,
                self.parts(),
                other.parts(),
                r.parts(),
                t.parts(),
            );
            F32::lemma_parts_injective(r, t);
        }
        r
    }

    /// An integer, rounded.
    pub fn from_int(n: i64) -> (r: F32)
        ensures
            r.is_int(n as int),
            r == F32::of_int(n as int),
    {
        let size: u128 = if n < 0 {
            (-(n as i128)) as u128
        } else {
            n as u128
        };
        proof {
            lemma2_to64();
            lemma_pow2_strictly_increases(64, 120);
        }
        let r: F32 = F32::join((n < 0, round(24, TOP32 as u64, size, 149)));
        proof {
            assert(r.is_int(n as int));
            let t = F32::of_int(n as int);
            lemma_nearest_unique(24, TOP32 as nat, size as nat * pow2(149), 0, r.index(), t.index());
            F32::lemma_parts_injective(r, t);
        }
        r
    }

    /// The same number as binary64.
    pub fn widen(self) -> (r: F64)
        ensures
            self.is_widened(r),
            r == self.widened(),
    {
        let (negative, index) = self.split();
        if index > TOP32 as u64 {
            let r: F64 = F64 { bits: 0x7ff8_0000_0000_0000 };
            assert(self.is_widened(r));
            return r;
        }
        if index == TOP32 as u64 {
            let r: F64 = F64::join((negative, TOP64));
            proof {
                assert(self.is_widened(r));
                F64::lemma_parts_injective(r, self.widened());
            }
            return r;
        }
        let (m, s) = decompose(24, TOP32 as u64, index);
        proof {
            lemma2_to64();
            lemma2_to64_rest();
            lemma_pow2_strictly_increases(24, 53);
            lemma_pow2_strictly_increases(24, 120);
        }
        let wide: u64 = round(53, TOP64, m as u128, 925 + (s as i32));
        let r: F64 = F64::join((negative, wide));
        proof {
            lemma_widen(m as nat, (925 + s) as nat, wide as nat);
            lemma_pow2_adds(s as nat, 925);
            assert(m * (pow2(s as nat) * pow2(925)) == m * pow2(s as nat) * pow2(925))
                by (nonlinear_arith);
            assert(self.is_widened(r));
            let t = self.widened();
            if r.index() < t.index() {
                lemma_magnitude_increases(53, r.index(), t.index());
            }
            if t.index() < r.index() {
                lemma_magnitude_increases(53, t.index(), r.index());
            }
            F64::lemma_parts_injective(r, t);
        }
        r
    }
}

/// A short significand far above the units of binary64 is represented exactly.
proof fn lemma_widen(m: nat, scale: nat, index: nat)
    requires
        m < pow2(24),
        53 <= scale <= 1200,
        nearest(53, TOP64 as nat, m * pow2(scale), 0, index),
    ensures
        magnitude(53, index) == m * pow2(scale),
        index < TOP64,
{
    lemma2_to64();
    lemma2_to64_rest();
    let n = m * pow2(scale);
    lemma_pow2_pos(scale);
    // Find the index that has this magnitude.
    let exact: nat = if m == 0 {
        0
    } else {
        if scale > 53 {
            lemma_pow2_strictly_increases(53, scale);
        }
        assert(m * pow2(scale) >= pow2(scale)) by (nonlinear_arith)
            requires
                m >= 1,
        ;
        lemma_normal(m, scale)
    };
    if m == 0 {
        assert(n == 0) by (nonlinear_arith)
            requires
                n == m * pow2(scale),
                m == 0,
        ;
        assert(magnitude(53, 0) == 0);
    }
    assert(magnitude(53, exact) == n);
    // Nothing else is nearest.
    if index < exact {
        lemma_magnitude_increases(53, index, exact);
        if index + 1 < exact {
            lemma_magnitude_increases(53, index + 1, exact);
        }
        assert((magnitude(53, index) + magnitude(53, index + 1)) * pow2(0) == magnitude(53, index)
            + magnitude(53, index + 1)) by (nonlinear_arith)
            requires
                pow2(0) == 1,
        ;
        assert(false);
    }
    if index > exact {
        lemma_magnitude_increases(53, exact, index);
        if exact < index - 1 {
            lemma_magnitude_increases(53, exact, (index - 1) as nat);
        }
        assert((magnitude(53, (index - 1) as nat) + magnitude(53, index)) * pow2(0) == magnitude(
            53,
            (index - 1) as nat,
        ) + magnitude(53, index)) by (nonlinear_arith)
            requires
                pow2(0) == 1,
        ;
        assert(false);
    }
}

/// The index of a significand times a power of two: the significand is doubled
/// until it has 53 bits.
proof fn lemma_normal(m: nat, scale: nat) -> (index: nat)
    requires
        0 < m < pow2(53),
        scale <= 1200,
        pow2(52) <= m * pow2(scale),
    ensures
        magnitude(53, index) == m * pow2(scale),
        index < TOP64,
    decreases scale,
{
    lemma2_to64();
    lemma2_to64_rest();
    let half = pow2(52);
    if m >= half || scale == 0 {
        if scale == 0 {
            assert(m * pow2(0) == m) by (nonlinear_arith)
                requires
                    pow2(0) == 1,
            ;
        }
        lemma_magnitude_at(53, scale, m);
        assert(scale * half + m < TOP64) by (nonlinear_arith)
            requires
                scale <= 1200,
                half == 0x10_0000_0000_0000,
                m < 2 * half,
                TOP64 == 2047 * half,
        ;
        (scale * half + m) as nat
    } else {
        lemma_pow2_unfold(scale);
        assert((2 * m) * pow2((scale - 1) as nat) == m * pow2(scale)) by (nonlinear_arith)
            requires
                pow2(scale) == 2 * pow2((scale - 1) as nat),
        ;
        lemma_normal(2 * m, (scale - 1) as nat)
    }
}

impl F64 {
    /// Whether the sign bit is set.
    pub open spec fn negative(self) -> bool {
        self.bits >= SIGN64
    }

    /// The bits below the sign.
    pub open spec fn index(self) -> nat {
        if self.negative() {
            (self.bits - SIGN64) as nat
        } else {
            self.bits as nat
        }
    }

    /// Sign and index.
    pub open spec fn parts(self) -> (bool, nat) {
        (self.negative(), self.index())
    }

    /// Whether this is a number, and not an infinity.
    pub open spec fn finite(self) -> bool {
        self.index() < TOP64
    }

    /// Whether this is not a number.
    pub open spec fn nan(self) -> bool {
        self.index() > TOP64
    }

    /// Whether two are equal numbers.
    pub open spec fn equals(self, other: F64) -> bool {
        &&& !self.nan() && !other.nan()
        &&& self.index() == other.index()
        &&& self.negative() == other.negative() || self.index() == 0
    }

    /// A finite number in units of 2^-1074.
    pub open spec fn value(self) -> int {
        signed(53, self.negative(), self.index())
    }

    /// The rounded sum.
    pub open spec fn sum(self, other: F64) -> F64 {
        choose|r: F64| #[trigger]
            is_sum(53, TOP64 as nat, self.parts(), other.parts(), r.parts())
    }

    /// The rounded product.
    pub open spec fn product(self, other: F64) -> F64 {
        choose|r: F64| #[trigger]
            is_product(53, TOP64 as nat, 1074, self.parts(), other.parts(), r.parts())
    }

    /// The number with the other sign.
    pub open spec fn opposite(self) -> F64 {
        F64 {
            bits: if self.negative() {
                (self.bits - SIGN64) as u64
            } else {
                (self.bits + SIGN64) as u64
            },
        }
    }

    pub(crate) proof fn lemma_parts_injective(a: F64, b: F64)
        requires
            a.parts() == b.parts(),
        ensures
            a == b,
    {
    }

    /// Where a number stands among all numbers, the infinities included: the
    /// index, negated below zero.
    pub open spec fn rank(self) -> int {
        if self.negative() {
            -(self.index() as int)
        } else {
            self.index() as int
        }
    }

    pub(crate) fn split(self) -> (r: (bool, u64))
        ensures
            r.0 == self.negative(),
            r.1 == self.index(),
            r.1 < SIGN64,
    {
        if self.bits >= SIGN64 {
            (true, self.bits - SIGN64)
        } else {
            (false, self.bits)
        }
    }

    pub(crate) fn join(parts: (bool, u64)) -> (r: F64)
        requires
            parts.1 < SIGN64,
        ensures
            r.negative() == parts.0,
            r.index() == parts.1,
    {
        if parts.0 {
            F64 { bits: SIGN64 + parts.1 }
        } else {
            F64 { bits: parts.1 }
        }
    }

    /// Whether this is a number, and not an infinity.
    pub fn is_finite(self) -> (r: bool)
        ensures
            r == self.finite(),
    {
        self.split().1 < TOP64
    }

    /// Whether this is not a number.
    pub fn is_nan(self) -> (r: bool)
        ensures
            r == self.nan(),
    {
        self.split().1 > TOP64
    }

    /// Whether this is greater than zero.
    pub fn is_positive(self) -> (r: bool)
        ensures
            r == (!self.nan() && self.rank() > 0),
    {
        let (negative, index) = self.split();
        !negative && 0 < index && index <= TOP64
    }

    /// The rank as a machine number.
    pub fn key(self) -> (r: i64)
        ensures
            r == self.rank(),
    {
        let (negative, index) = self.split();
        if negative {
            -(index as i64)
        } else {
            index as i64
        }
    }

    /// Whether this is less than the other; false where either is no number.
    pub fn less(self, other: F64) -> (r: bool)
        ensures
            r == (!self.nan() && !other.nan() && self.rank() < other.rank()),
    {
        !self.is_nan() && !other.is_nan() && self.key() < other.key()
    }

    /// The sum, rounded.
    pub fn plus(self, other: F64) -> (r: F64)
        ensures
            is_sum(53, TOP64 as nat, self.parts(), other.parts(), r.parts()),
            r == self.sum(other),
    {
        let r: F64 = F64::join(add_parts(53, TOP64, self.split(), other.split()));
        proof {
            let t = self.sum(other);
            lemma_sum_unique(53, TOP64 as nat, self.parts(), other.parts(), r.parts(), t.parts());
            F64::lemma_parts_injective(r, t);
        }
        r
    }

    /// The number with the other sign.
    pub fn negated(self) -> (r: F64)
        ensures
            r == self.opposite(),
            r.negative() == !self.negative(),
            r.index() == self.index(),
    {
        let (negative, index) = self.split();
        F64::join((!negative, index))
    }

    /// The product, rounded.
    pub fn times(self, other: F64) -> (r: F64)
        ensures
            is_product(53, TOP64 as nat, 1074, self.parts(), other.parts(), r.parts()),
            r == self.product(other),
    {
        let r: F64 = F64::join(multiply_parts(53, TOP64, 1074, self.split(), other.split()));
        proof {
            let t = self.product(other);
            lemma_product_unique(
                53,
                TOP64 as nat,
                1074,
                self.parts(),
                other.parts(),
                r.parts(),
                t.parts(),
            );
            F64::lemma_parts_injective(r, t);
        }
        r
    }
}

/// Finite numbers have the order of their ranks.
pub proof fn lemma_rank_orders_values(a: F64, b: F64)
    requires
        a.finite(),
        b.finite(),
    ensures
        a.rank() < b.rank() <==> a.value() < b.value(),
        a.rank() == b.rank() <==> a.value() == b.value(),
{
    lemma2_to64_rest();
    lemma2_to64();
    assert(magnitude(53, 0) == 0);
    let i = a.index();
    let j = b.index();
    if i < j {
        lemma_magnitude_increases(53, i, j);
    }
    if j < i {
        lemma_magnitude_increases(53, j, i);
    }
    if i > 0 {
        lemma_magnitude_increases(53, 0, i);
    }
    if j > 0 {
        lemma_magnitude_increases(53, 0, j);
    }
}

/// Some index is nearest to any count.
pub(crate) proof fn lemma_nearest_exists(precision: nat, top: nat, n: nat, k: nat, i: nat) -> (index: nat)
    requires
        precision >= 2,
        i <= top,
        i > 0 ==> {
            let middle = (magnitude(precision, (i - 1) as nat) + magnitude(precision, i)) * pow2(k);
            2 * n > middle || (2 * n == middle && i % 2 == 0)
        },
    ensures
        nearest(precision, top, n, k, index),
    decreases top - i,
{
    if nearest(precision, top, n, k, i) {
        i
    } else {
        let middle = (magnitude(precision, i) + magnitude(precision, i + 1)) * pow2(k);
        assert(i < top);
        lemma_nearest_exists(precision, top, n, k, i + 1)
    }
}

/// Every integer has a rounding, which is a number and has the integer's sign.
pub proof fn lemma_of_int(n: int) -> (r: F32)
    ensures
        r == F32::of_int(n),
        r.is_int(n),
        !r.nan(),
        r.negative() == (n < 0),
{
    let size = if n < 0 {
        (-n) as nat
    } else {
        n as nat
    };
    let index = lemma_nearest_exists(24, TOP32 as nat, size * pow2(149), 0, 0);
    let r = F32 {
        bits: if n < 0 {
            (SIGN32 + index) as u32
        } else {
            index as u32
        },
    };
    assert(r.is_int(n));
    F32::of_int(n)
}

/// The product of a number with a finite one other than zero is a number, with
/// the sign that the two signs give.
pub proof fn lemma_product(a: F32, b: F32) -> (r: F32)
    requires
        !a.nan(),
        b.finite(),
        b.index() > 0,
    ensures
        r == a.product(b),
        is_product(24, TOP32 as nat, 149, a.parts(), b.parts(), r.parts()),
        !r.nan(),
        r.negative() == (a.negative() != b.negative()),
{
    let index: nat = if a.index() == TOP32 {
        TOP32 as nat
    } else {
        lemma_nearest_exists(
            24,
            TOP32 as nat,
            magnitude(24, a.index()) * magnitude(24, b.index()),
            149,
            0,
        )
    };
    let r = F32 {
        bits: if a.negative() != b.negative() {
            (SIGN32 + index) as u32
        } else {
            index as u32
        },
    };
    assert(r.parts() == (a.negative() != b.negative(), index));
    assert(is_product(24, TOP32 as nat, 149, a.parts(), b.parts(), r.parts()));
    a.product(b)
}

/// A number stays a number with the same sign when it is widened.
pub proof fn lemma_widened(a: F32) -> (r: F64)
    requires
        !a.nan(),
    ensures
        r == a.widened(),
        a.is_widened(r),
        !r.nan(),
        r.negative() == a.negative(),
{
    lemma2_to64();
    lemma2_to64_rest();
    let index: nat = if a.finite() {
        let half = pow2(23);
        let i = a.index();
        // The significand and the doublings of the step at this index.
        let (m, s): (nat, nat) = if i < 2 * half {
            (i, 0)
        } else {
            let s = (i / half - 1) as nat;
            assert(i / half >= 2) by (nonlinear_arith)
                requires
                    i >= 2 * half,
                    half > 0,
            ;
            ((i - s * half) as nat, s)
        };
        assert(m < pow2(24) && s <= 253 && magnitude(24, i) == m * pow2(s)) by {
            if i < 2 * half {
                assert(i * pow2(0) == i) by (nonlinear_arith)
                    requires
                        pow2(0) == 1,
                ;
            } else {
                assert(half <= i - (i / half - 1) * half < 2 * half) by (nonlinear_arith)
                    requires
                        half > 0,
                ;
                assert(i / half <= 254);
            }
        }
        lemma_pow2_adds(s, 925);
        assert(m * (pow2(s) * pow2(925)) == m * pow2(s) * pow2(925)) by (nonlinear_arith);
        let w = lemma_nearest_exists(53, TOP64 as nat, m * pow2(s + 925), 0, 0);
        lemma_widen(m, s + 925, w);
        w
    } else {
        TOP64 as nat
    };
    let r = F64 {
        bits: if a.negative() {
            (SIGN64 + index) as u64
        } else {
            index as u64
        },
    };
    assert(r.parts() == (a.negative(), index));
    assert(a.is_widened(r));
    a.widened()
}

} // verus!
