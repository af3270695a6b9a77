//! Quotients, and numbers rounded from another format, on top of
//! [`crate::float`].
use vstd::arithmetic::power2::{
    lemma2_to64, lemma2_to64_rest, lemma_pow2_adds, lemma_pow2_pos, lemma_pow2_strictly_increases,
    pow2,
};
use vstd::prelude::*;

use crate::float::{
    bit_length, decompose, is_format, is_sum, lemma_magnitude_increases, lemma_magnitude_step,
    lemma_nearest_unique, lemma_sum_unique, lemma_widened, magnitude, nearest, power, quiet, round,
    signed, F32, F64, SIGN32, SIGN64, TOP32, TOP64,
};

verus! {

/// That the magnitude with this index is the one nearest to `n / d` units, with
/// infinity at `top` in the place of the next power of two.
pub open spec fn nearest_ratio(precision: nat, top: nat, n: nat, d: nat, index: nat) -> bool {
    &&& index <= top
    &&& index < top ==> {
        let middle = (magnitude(precision, index) + magnitude(precision, index + 1)) * d;
        2 * n < middle || (2 * n == middle && index % 2 == 0)
    }
    &&& index > 0 ==> {
        let middle = (magnitude(precision, (index - 1) as nat) + magnitude(precision, index)) * d;
        2 * n > middle || (2 * n == middle && index % 2 == 0)
    }
}

/// That a sign and an index are the quotient of two numbers, where one is
/// `2^unit` units.
pub open spec fn is_quotient(
    precision: nat,
    top: nat,
    unit: nat,
    a: (bool, nat),
    b: (bool, nat),
    r: (bool, nat),
) -> bool {
    if a.1 > top || b.1 > top || (a.1 == top && b.1 == top) || (a.1 == 0 && b.1 == 0) {
        r == (false, quiet(precision))
    } else {
        &&& r.0 == (a.0 != b.0)
        &&& if a.1 == top || b.1 == 0 {
            r.1 == top
        } else if b.1 == top {
            r.1 == 0
        } else {
            nearest_ratio(
                precision,
                top,
                magnitude(precision, a.1) * pow2(unit),
                magnitude(precision, b.1),
                r.1,
            )
        }
    }
}

proof fn lemma_ratio_order(precision: nat, top: nat, n: nat, d: nat, i: nat, j: nat)
    requires
        precision >= 2,
        d > 0,
        nearest_ratio(precision, top, n, d, i),
        nearest_ratio(precision, top, n, d, j),
    ensures
        i >= j,
{
    let upper = (magnitude(precision, i) + magnitude(precision, i + 1)) as int;
    let lower = (magnitude(precision, (j - 1) as nat) + magnitude(precision, j)) as int;
    if i + 1 < j {
        lemma_magnitude_increases(precision, i, (j - 1) as nat);
        lemma_magnitude_increases(precision, i + 1, j);
        assert(upper * d < lower * d) by (nonlinear_arith)
            requires
                upper < lower,
                d > 0,
        ;
    } else if i < j {
        assert(upper == lower);
        assert(i % 2 == 0 && j % 2 == 0);
    }
}

/// At most one magnitude is nearest to a ratio.
pub proof fn lemma_ratio_unique(precision: nat, top: nat, n: nat, d: nat, i: nat, j: nat)
    requires
        precision >= 2,
        d > 0,
        nearest_ratio(precision, top, n, d, i),
        nearest_ratio(precision, top, n, d, j),
    ensures
        i == j,
{
    lemma_ratio_order(precision, top, n, d, i, j);
    lemma_ratio_order(precision, top, n, d, j, i);
}

/// At most one sign and index are a quotient.
pub proof fn lemma_quotient_unique(
    precision: nat,
    top: nat,
    unit: nat,
    a: (bool, nat),
    b: (bool, nat),
    r: (bool, nat),
    t: (bool, nat),
)
    requires
        precision >= 2,
        is_quotient(precision, top, unit, a, b, r),
        is_quotient(precision, top, unit, a, b, t),
    ensures
        r == t,
{
    if a.1 < top && 0 < b.1 < top {
        assert(magnitude(precision, 0) == 0) by {
            lemma_pow2_pos((precision - 1) as nat);
        }
        lemma_magnitude_increases(precision, 0, b.1);
        lemma_ratio_unique(
            precision,
            top,
            magnitude(precision, a.1) * pow2(unit),
            magnitude(precision, b.1),
            r.1,
            t.1,
        );
    }
}

/// Neighbouring magnitudes are multiples of the step between them, and less than
/// `2^precision` steps.
proof fn lemma_step_multiple(precision: nat, index: nat) -> (r: (nat, nat))
    requires
        precision >= 2,
    ensures
        magnitude(precision, index) == r.0 * pow2(r.1),
        magnitude(precision, index + 1) == (r.0 + 1) * pow2(r.1),
        r.0 < pow2(precision),
{
    let half = pow2((precision - 1) as nat);
    vstd::arithmetic::power2::lemma_pow2_unfold(precision);
    lemma_pow2_pos((precision - 1) as nat);
    lemma2_to64();
    let shift = lemma_magnitude_step(precision, index);
    let q: nat = if index < 2 * half {
        index
    } else {
        assert(half <= index - (index / half - 1) * half < 2 * half) by (nonlinear_arith)
            requires
                half > 0,
        ;
        (index - shift * half) as nat
    };
    if index < 2 * half {
        assert(index * pow2(0) == index) by (nonlinear_arith)
            requires
                pow2(0) == 1,
        ;
    }
    assert((q + 1) * pow2(shift) == q * pow2(shift) + pow2(shift)) by (nonlinear_arith);
    (q, shift)
}

/// No middle between two magnitudes lies strictly between `4 q * 2^up` and
/// `4 (q + 1) * 2^up`, all in units over `2^down`, where `q` has more bits than the
/// precision.
proof fn lemma_no_middle(precision: nat, index: nat, q: nat, up: nat, down: nat)
    requires
        precision >= 2,
        q >= pow2(precision + 3),
    ensures
        ({
            let middle = (magnitude(precision, index) + magnitude(precision, index + 1)) * pow2(
                down,
            );
            middle <= 4 * q * pow2(up) || middle >= (4 * q + 4) * pow2(up)
        }),
{
    let (c, s) = lemma_step_multiple(precision, index);
    let a = pow2(up) as int;
    let b = pow2(down) as int;
    let w = pow2(s) as int;
    let middle = (magnitude(precision, index) + magnitude(precision, index + 1)) * pow2(down);
    lemma_pow2_pos(up);
    lemma_pow2_pos(down);
    lemma_pow2_pos(s);
    lemma_pow2_adds(s, down);
    lemma2_to64();
    let wb = pow2(s + down) as int;
    lemma_pow2_pos(s + down);
    assert(middle == (2 * c + 1) * wb) by (nonlinear_arith)
        requires
            middle == (c * w + (c + 1) * w) * b,
            wb == w * b,
    ;
    let low = 4 * q * a;
    let high = (4 * q + 4) * a;
    if low < middle < high {
        // The middle is large, so its step is.
        assert(s + down >= up + 2) by {
            if s + down < up + 2 {
                lemma_pow2_adds(precision, 1);
                if s + down < up + 1 {
                    lemma_pow2_strictly_increases(s + down, up + 1);
                }
                lemma_pow2_adds(up, 1);
                lemma_pow2_adds(precision, 3);
                let p = pow2(precision) as int;
                assert((2 * c + 1) * wb <= (2 * p) * (2 * a)) by (nonlinear_arith)
                    requires
                        0 <= c,
                        2 * c + 1 <= 2 * p,
                        0 < wb <= 2 * a,
                ;
                assert(4 * q * a >= 4 * (8 * p) * a) by (nonlinear_arith)
                    requires
                        q >= 8 * p,
                        a > 0,
                ;
                assert((2 * p) * (2 * a) < 4 * (8 * p) * a) by (nonlinear_arith)
                    requires
                        p > 0,
                        a > 0,
                ;
                assert(false);
            }
        }
        let rest = (s + down - up - 2) as nat;
        lemma_pow2_adds(up, 2);
        lemma_pow2_adds(up + 2, rest);
        let f = pow2(rest) as int;
        let unit = 4 * a;
        assert(middle == ((2 * c + 1) * f) * unit) by (nonlinear_arith)
            requires
                middle == (2 * c + 1) * wb,
                wb == unit * f,
        ;
        let k = (2 * c + 1) * f;
        assert(q * unit == low && (q + 1) * unit == high) by (nonlinear_arith)
            requires
                unit == 4 * a,
                low == 4 * q * a,
                high == (4 * q + 4) * a,
        ;
        assert(q < k && k < q + 1) by (nonlinear_arith)
            requires
                q * unit < k * unit,
                k * unit < (q + 1) * unit,
                unit > 0,
        ;
        assert(false);
    }
}

/// Rounding `2 q`, or `2 q + 1` where a remainder is left, rounds `2 n / d`.
proof fn lemma_sticky(
    precision: nat,
    top: nat,
    n: nat,
    d: nat,
    q: nat,
    r: nat,
    up: nat,
    down: nat,
    index: nat,
)
    requires
        precision >= 2,
        n == q * d + r,
        r < d,
        q >= pow2(precision + 3),
        nearest(
            precision,
            top,
            (2 * q + (if r > 0 {
                1nat
            } else {
                0
            })) * pow2(up),
            down,
            index,
        ),
    ensures
        nearest_ratio(precision, top, 2 * n * pow2(up), d * pow2(down), index),
{
    if index < top {
        lemma_sticky_side(precision, n, d, q, r, up, down, index);
    }
    if index > 0 {
        lemma_sticky_side(precision, n, d, q, r, up, down, (index - 1) as nat);
    }
}

proof fn lemma_sticky_side(
    precision: nat,
    n: nat,
    d: nat,
    q: nat,
    r: nat,
    up: nat,
    down: nat,
    index: nat,
)
    requires
        precision >= 2,
        n == q * d + r,
        r < d,
        q >= pow2(precision + 3),
    ensures
        ({
            let sum = magnitude(precision, index) + magnitude(precision, index + 1);
            let s = 2 * q + (if r > 0 {
                1nat
            } else {
                0
            });
            let x = 2 * (s * pow2(up)) - sum * pow2(down);
            let y = 2 * (2 * n * pow2(up)) - sum * (d * pow2(down));
            &&& x > 0 ==> y > 0
            &&& x < 0 ==> y < 0
            &&& x == 0 ==> y == 0
        }),
{
    let sum = (magnitude(precision, index) + magnitude(precision, index + 1)) as int;
    let a = pow2(up) as int;
    let b = sum * pow2(down);
    lemma_pow2_pos(up);
    lemma_no_middle(precision, index, q, up, down);
    let y = 2 * (2 * n * a) - b * d;
    assert(sum * (d * pow2(down)) == b * d) by (nonlinear_arith)
        requires
            b == sum * pow2(down),
    ;
    if r == 0 {
        let x = 2 * ((2 * q + 0) * a) - b;
        assert(y == x * d) by (nonlinear_arith)
            requires
                y == 2 * (2 * n * a) - b * d,
                x == 2 * ((2 * q + 0) * a) - b,
                n == q * d,
        ;
        assert((x > 0 ==> x * d > 0) && (x < 0 ==> x * d < 0) && (x == 0 ==> x * d == 0))
            by (nonlinear_arith)
            requires
                d > 0,
        ;
    } else {
        let x = 2 * ((2 * q + 1) * a) - b;
        assert(x == 4 * q * a + 2 * a - b) by (nonlinear_arith)
            requires
                x == 2 * ((2 * q + 1) * a) - b,
        ;
        assert((4 * q + 4) * a == 4 * q * a + 4 * a) by (nonlinear_arith);
        assert(y == 4 * q * a * d + 4 * r * a - b * d) by (nonlinear_arith)
            requires
                y == 2 * (2 * n * a) - b * d,
                n == q * d + r,
        ;
        assert(0 < 4 * r * a < 4 * a * d) by (nonlinear_arith)
            requires
                0 < r < d,
                a > 0,
        ;
        if b <= 4 * q * a {
            assert(b * d <= 4 * q * a * d) by (nonlinear_arith)
                requires
                    b <= 4 * q * a,
                    d > 0,
            ;
        } else {
            assert(b * d >= 4 * q * a * d + 4 * a * d) by (nonlinear_arith)
                requires
                    b >= 4 * q * a + 4 * a,
                    d > 0,
            ;
        }
    }
}

/// Scaling both sides of a ratio keeps what is nearest.
proof fn lemma_ratio_scale(precision: nat, top: nat, n: nat, d: nat, f: nat, index: nat)
    requires
        f > 0,
        nearest_ratio(precision, top, n * f, d * f, index),
    ensures
        nearest_ratio(precision, top, n, d, index),
{
    let upper = (magnitude(precision, index) + magnitude(precision, index + 1)) as int;
    assert(2 * (n * f) == (2 * n) * f) by (nonlinear_arith);
    assert(upper * (d * f) == (upper * d) * f) by (nonlinear_arith);
    assert((2 * n) * f < (upper * d) * f ==> 2 * n < upper * d) by (nonlinear_arith)
        requires
            f > 0,
    ;
    assert((2 * n) * f == (upper * d) * f ==> 2 * n == upper * d) by (nonlinear_arith)
        requires
            f > 0,
    ;
    if index > 0 {
        let lower = (magnitude(precision, (index - 1) as nat) + magnitude(precision, index)) as int;
        assert(lower * (d * f) == (lower * d) * f) by (nonlinear_arith);
        assert((2 * n) * f > (lower * d) * f ==> 2 * n > lower * d) by (nonlinear_arith)
            requires
                f > 0,
        ;
        assert((2 * n) * f == (lower * d) * f ==> 2 * n == lower * d) by (nonlinear_arith)
            requires
                f > 0,
        ;
    }
}

/// Divides two finite magnitudes, the second not zero.
fn divide_finite(precision: u32, top: u64, unit: u32, a: u64, b: u64) -> (index: u64)
    requires
        is_format(precision as nat, top as nat),
        unit == if precision == 24 {
            149nat
        } else {
            1074
        },
        a < top,
        0 < b < top,
    ensures
        nearest_ratio(
            precision as nat,
            top as nat,
            magnitude(precision as nat, a as nat) * pow2(unit as nat),
            magnitude(precision as nat, b as nat),
            index as nat,
        ),
{
    let (ma, sa) = decompose(precision, top, a);
    let (mb, sb) = decompose(precision, top, b);
    let ghost p = precision as nat;
    let ghost t = top as nat;
    proof {
        lemma2_to64();
        lemma2_to64_rest();
        lemma_pow2_pos((p - 1) as nat);
        assert(magnitude(p, 0) == 0);
        lemma_magnitude_increases(p, 0, b as nat);
    }
    if a == 0 {
        proof {
            lemma_magnitude_increases(p, 0, 1);
            let d = magnitude(p, b as nat);
            assert(0 * pow2(unit as nat) == 0);
            assert((magnitude(p, 0) + magnitude(p, 1)) * d > 0) by (nonlinear_arith)
                requires
                    magnitude(p, 0) + magnitude(p, 1) > 0,
                    d > 0,
            ;
        }
        return 0;
    }
    let length: u32 = bit_length(ma as u128);
    proof {
        if length > 53 {
            if length - 1 > 53 {
                lemma_pow2_strictly_increases(53, (length - 1) as nat);
            }
            assert(false);
        }
        lemma_pow2_adds(length as nat, (118 - length) as nat);
        lemma_pow2_adds((length - 1) as nat, (118 - length) as nat);
        lemma_pow2_pos((118 - length) as nat);
        let f = pow2((118 - length) as nat) as int;
        assert(ma * f < pow2(length as nat) * f && ma * f >= pow2((length - 1) as nat) * f)
            by (nonlinear_arith)
            requires
                pow2((length - 1) as nat) <= ma < pow2(length as nat),
                f > 0,
        ;
        lemma_pow2_adds(64, 53);
        lemma_pow2_adds(64, 54);
        assert(pow2(117) == 0x20_0000_0000_0000_0000_0000_0000_0000);
        assert(pow2(118) == 0x40_0000_0000_0000_0000_0000_0000_0000);
    }
    let n: u128 = (ma as u128) * power(118 - length);
    let d: u128 = mb as u128;
    let q: u128 = n / d;
    let r: u128 = n % d;
    proof {
        assert(n == q * d + r && r < d) by (nonlinear_arith)
            requires
                d > 0,
                q == n / d,
                r == n % d,
        ;
        assert(q >= pow2(64)) by (nonlinear_arith)
            requires
                q == n / d,
                0 < d < 0x20_0000_0000_0000,
                n >= 0x20_0000_0000_0000_0000_0000_0000_0000,
                pow2(64) == 0x1_0000_0000_0000_0000,
        ;
        assert(q <= n) by (nonlinear_arith)
            requires
                q == n / d,
                d > 0,
        ;
        if p + 3 < 64 {
            lemma_pow2_strictly_increases(p + 3, 64);
        }
        lemma_pow2_adds(118, 2);
        assert(pow2(120) == 0x100_0000_0000_0000_0000_0000_0000_0000);
    }
    let sticky: u128 = 2 * q + (if r > 0 {
        1
    } else {
        0
    });
    let scale: i32 = (sa as i32) - (sb as i32) + (unit as i32) - 119 + (length as i32);
    let index: u64 = round(precision, top, sticky, scale);
    proof {
        let up: nat = if scale >= 0 {
            scale as nat
        } else {
            0
        };
        let down: nat = if scale >= 0 {
            0
        } else {
            (-scale) as nat
        };
        lemma_sticky(
            p,
            t,
            n as nat,
            d as nat,
            q as nat,
            r as nat,
            up,
            down,
            index as nat,
        );
        // 2 n 2^up / (d 2^down) is what is asked for, in other units.
        let want_n = magnitude(p, a as nat) * pow2(unit as nat);
        let want_d = magnitude(p, b as nat);
        let left = (2 * n * pow2(up)) as nat;
        let right = (d * pow2(down)) as nat;
        let k = (118 - length) as nat;
        // Both sides times what brings them to the same power.
        lemma_pow2_adds(k, 1);
        lemma_pow2_adds(sa as nat, unit as nat);
        let sau = pow2((sa + unit) as nat) as int;
        assert(want_n == ma * sau) by (nonlinear_arith)
            requires
                want_n == (ma * pow2(sa as nat)) * pow2(unit as nat),
                sau == pow2(sa as nat) * pow2(unit as nat),
        ;
        // left * 2^(sb + down) == want_n * 2^(k + 1 + up + sb + down - sa - unit) ...
        let e = (k + 1 + up + sb) as nat;
        assert(e == sa + unit + down);
        let f = pow2((k + 1 + up) as nat);
        let g = pow2((sa + unit) as nat);
        lemma_pow2_pos((k + 1 + up) as nat);
        lemma_pow2_pos((sa + unit) as nat);
        lemma_pow2_pos(sb as nat);
        lemma_pow2_adds((k + 1) as nat, up);
        lemma_pow2_adds((k + 1 + up) as nat, sb as nat);
        lemma_pow2_adds((sa + unit) as nat, down);
        // want_n * f == left * g  and  want_d * f == right * g
        assert(want_n * f == left * g) by (nonlinear_arith)
            requires
                want_n == ma * g,
                left == 2 * n * pow2(up),
                n == ma * pow2(k),
                pow2((k + 1) as nat) == pow2(k) * 2,
                f == pow2((k + 1) as nat) * pow2(up),
        ;
        assert(want_d * f == right * g) by (nonlinear_arith)
            requires
                want_d == d * pow2(sb as nat),
                right == d * pow2(down),
                f * pow2(sb as nat) == g * pow2(down),
        ;
        lemma_ratio_grow(p, t, left, right, g, index as nat);
        lemma_ratio_scale(p, t, want_n, want_d, f, index as nat);
    }
    index
}

proof fn lemma_ratio_grow(precision: nat, top: nat, n: nat, d: nat, f: nat, index: nat)
    requires
        f > 0,
        nearest_ratio(precision, top, n, d, index),
    ensures
        nearest_ratio(precision, top, n * f, d * f, index),
{
    let upper = (magnitude(precision, index) + magnitude(precision, index + 1)) as int;
    assert(2 * (n * f) == (2 * n) * f) by (nonlinear_arith);
    assert(upper * (d * f) == (upper * d) * f) by (nonlinear_arith);
    assert(2 * n < upper * d ==> (2 * n) * f < (upper * d) * f) by (nonlinear_arith)
        requires
            f > 0,
    ;
    if index > 0 {
        let lower = (magnitude(precision, (index - 1) as nat) + magnitude(precision, index)) as int;
        assert(lower * (d * f) == (lower * d) * f) by (nonlinear_arith);
        assert(2 * n > lower * d ==> (2 * n) * f > (lower * d) * f) by (nonlinear_arith)
            requires
                f > 0,
        ;
    }
}

/// Divides two numbers given by their signs and indices.
fn divide_parts(precision: u32, top: u64, unit: u32, a: (bool, u64), b: (bool, u64)) -> (r: (
    bool,
    u64,
))
    requires
        is_format(precision as nat, top as nat),
        unit == if precision == 24 {
            149nat
        } else {
            1074
        },
    ensures
        is_quotient(
            precision as nat,
            top as nat,
            unit as nat,
            (a.0, a.1 as nat),
            (b.0, b.1 as nat),
            (r.0, r.1 as nat),
        ),
        precision == 24 ==> r.1 <= 0x7fc0_0000,
        precision == 53 ==> r.1 <= 0x7ff8_0000_0000_0000,
{
    let quiet: u64 = if precision == 24 {
        0x7fc0_0000
    } else {
        0x7ff8_0000_0000_0000
    };
    if a.1 > top || b.1 > top || (a.1 == top && b.1 == top) || (a.1 == 0 && b.1 == 0) {
        return (false, quiet);
    }
    let negative: bool = a.0 != b.0;
    if a.1 == top || b.1 == 0 {
        return (negative, top);
    }
    if b.1 == top {
        return (negative, 0);
    }
    (negative, divide_finite(precision, top, unit, a.1, b.1))
}

impl F32 {
    /// The rounded quotient.
    pub open spec fn quotient(self, other: F32) -> F32 {
        choose|r: F32| #[trigger]
            is_quotient(24, TOP32 as nat, 149, self.parts(), other.parts(), r.parts())
    }

    /// The quotient, rounded.
    pub fn over(self, other: F32) -> (r: F32)
        ensures
            is_quotient(24, TOP32 as nat, 149, self.parts(), other.parts(), r.parts()),
            r == self.quotient(other),
    {
        let r: F32 = F32::join(divide_parts(24, TOP32 as u64, 149, self.split(), other.split()));
        proof {
            let t = self.quotient(other);
            lemma_quotient_unique(
                24,
                TOP32 as nat,
                149,
                self.parts(),
                other.parts(),
                r.parts(),
                t.parts(),
            );
            F32::lemma_parts_injective(r, t);
        }
        r
    }

    /// The rounded difference.
    pub open spec fn difference(self, other: F32) -> F32 {
        self.sum(other.opposite())
    }

    /// The difference, rounded.
    pub fn minus(self, other: F32) -> (r: F32)
        ensures
            r == self.difference(other),
    {
        self.plus(other.negated())
    }

    /// Where a number stands among all numbers, the infinities included.
    pub open spec fn rank(self) -> int {
        if self.negative() {
            -(self.index() as int)
        } else {
            self.index() as int
        }
    }

    /// Whether two numbers stand in this order; never where one is no number.
    pub open spec fn below(self, other: F32) -> bool {
        !self.nan() && !other.nan() && self.rank() < other.rank()
    }

    /// Whether this is less than the other; false where either is no number.
    pub fn less(self, other: F32) -> (r: bool)
        ensures
            r == self.below(other),
    {
        let (n, i) = self.split();
        let (m, j) = other.split();
        let a: i64 = if n {
            -(i as i64)
        } else {
            i as i64
        };
        let b: i64 = if m {
            -(j as i64)
        } else {
            j as i64
        };
        !self.is_nan() && !other.is_nan() && a < b
    }
}

impl F32 {
    /// The number without its sign.
    pub open spec fn unsigned(self) -> F32 {
        if self.negative() {
            self.opposite()
        } else {
            self
        }
    }

    /// The number without its sign.
    pub fn abs(self) -> (r: F32)
        ensures
            r == self.unsigned(),
    {
        if self.is_negative() {
            self.negated()
        } else {
            self
        }
    }

    /// Whether two numbers stand in this order or are equal; never where one is no
    /// number.
    pub open spec fn at_most(self, other: F32) -> bool {
        !self.nan() && !other.nan() && self.rank() <= other.rank()
    }

    /// Whether this is at most the other; false where either is no number.
    pub fn no_more(self, other: F32) -> (r: bool)
        ensures
            r == self.at_most(other),
    {
        !self.is_nan() && !other.is_nan() && !other.less(self)
    }
}

impl F64 {
    /// Whether two numbers stand in this order; never where one is no number.
    pub open spec fn below(self, other: F64) -> bool {
        !self.nan() && !other.nan() && self.rank() < other.rank()
    }

    /// The number without its sign.
    pub open spec fn unsigned(self) -> F64 {
        if self.negative() {
            self.opposite()
        } else {
            self
        }
    }

    /// The number with this sign.
    pub open spec fn with_sign(self, negative: bool) -> F64 {
        if self.negative() == negative {
            self
        } else {
            self.opposite()
        }
    }

    /// Whether the sign bit is set.
    pub fn is_negative(self) -> (r: bool)
        ensures
            r == self.negative(),
    {
        self.bits >= SIGN64
    }

    /// The number without its sign.
    pub fn abs(self) -> (r: F64)
        ensures
            r == self.unsigned(),
    {
        if self.is_negative() {
            self.negated()
        } else {
            self
        }
    }

    /// The number with this sign.
    pub fn signed_as(self, negative: bool) -> (r: F64)
        ensures
            r == self.with_sign(negative),
    {
        if self.is_negative() == negative {
            self
        } else {
            self.negated()
        }
    }

    /// The rounded quotient.
    pub open spec fn quotient(self, other: F64) -> F64 {
        choose|r: F64| #[trigger]
            is_quotient(53, TOP64 as nat, 1074, self.parts(), other.parts(), r.parts())
    }

    /// The quotient, rounded.
    pub fn over(self, other: F64) -> (r: F64)
        ensures
            is_quotient(53, TOP64 as nat, 1074, self.parts(), other.parts(), r.parts()),
            r == self.quotient(other),
    {
        let r: F64 = F64::join(divide_parts(53, TOP64, 1074, self.split(), other.split()));
        proof {
            let t = self.quotient(other);
            lemma_quotient_unique(
                53,
                TOP64 as nat,
                1074,
                self.parts(),
                other.parts(),
                r.parts(),
                t.parts(),
            );
            F64::lemma_parts_injective(r, t);
        }
        r
    }

    /// That a number of binary32 is this one, rounded.
    pub open spec fn is_narrowed(self, r: F32) -> bool {
        if self.nan() {
            r.parts() == (false, quiet(24))
        } else {
            &&& r.negative() == self.negative()
            &&& if self.finite() {
                nearest(24, TOP32 as nat, magnitude(53, self.index()), 925, r.index())
            } else {
                r.index() == TOP32
            }
        }
    }

    /// The number, rounded to binary32.
    pub open spec fn narrowed(self) -> F32 {
        choose|r: F32| #[trigger] self.is_narrowed(r)
    }

    /// The number, rounded to binary32.
    pub fn narrow(self) -> (r: F32)
        ensures
            self.is_narrowed(r),
            r == self.narrowed(),
    {
        let (negative, index) = self.split();
        let parts: (bool, u64) = if index > TOP64 {
            (false, 0x7fc0_0000)
        } else if index == TOP64 {
            (negative, TOP32 as u64)
        } else {
            let (m, s) = decompose(53, TOP64, index);
            proof {
                lemma2_to64();
                lemma2_to64_rest();
                lemma_pow2_strictly_increases(53, 120);
            }
            let scale: i32 = (s as i32) - 925;
            let rounded: u64 = round(24, TOP32 as u64, m as u128, scale);
            proof {
                if scale >= 0 {
                    crate::float::lemma_nearest_scale(
                        24,
                        TOP32 as nat,
                        m as nat * pow2(scale as nat),
                        0,
                        925,
                        rounded as nat,
                    );
                    lemma_pow2_adds(scale as nat, 925);
                    assert(m * pow2(scale as nat) * pow2(925) == m * (pow2(scale as nat) * pow2(
                        925,
                    ))) by (nonlinear_arith);
                } else {
                    crate::float::lemma_nearest_scale(
                        24,
                        TOP32 as nat,
                        m as nat * pow2(0),
                        (-scale) as nat,
                        s as nat,
                        rounded as nat,
                    );
                    assert(m * pow2(0) * pow2(s as nat) == m * pow2(s as nat)) by (nonlinear_arith)
                        requires
                            pow2(0) == 1,
                    ;
                }
            }
            (negative, rounded)
        };
        let r: F32 = F32::join(parts);
        proof {
            assert(self.is_narrowed(r));
            let t = self.narrowed();
            if self.finite() {
                lemma_nearest_unique(
                    24,
                    TOP32 as nat,
                    magnitude(53, self.index()),
                    925,
                    r.index(),
                    t.index(),
                );
            }
            F32::lemma_parts_injective(r, t);
        }
        r
    }

    /// That this is an integer, rounded.
    pub open spec fn is_int(self, n: int) -> bool {
        &&& self.negative() == (n < 0)
        &&& nearest(
            53,
            TOP64 as nat,
            (if n < 0 {
                (-n) as nat
            } else {
                n as nat
            }) * pow2(1074),
            0,
            self.index(),
        )
    }

    /// An integer, rounded.
    pub open spec fn of_int(n: int) -> F64 {
        choose|r: F64| #[trigger] r.is_int(n)
    }

    /// A natural number, rounded.
    pub fn from_nat(n: u64) -> (r: F64)
        ensures
            r.is_int(n as int),
            r == F64::of_int(n as int),
    {
        let size: u128 = n as u128;
        proof {
            lemma2_to64();
            lemma_pow2_strictly_increases(64, 120);
        }
        let r: F64 = F64::join((false, round(53, TOP64, size, 1074)));
        proof {
            assert(r.is_int(n as int));
            let t = F64::of_int(n as int);
            lemma_nearest_unique(
                53,
                TOP64 as nat,
                size as nat * pow2(1074),
                0,
                r.index(),
                t.index(),
            );
            F64::lemma_parts_injective(r, t);
        }
        r
    }
}

/// A number less itself is zero, with a plus sign.
pub proof fn lemma_difference_self(a: F32)
    requires
        a.finite(),
    ensures
        a.difference(a) == (F32 { bits: 0 }),
{
    let zero = F32 { bits: 0 };
    let b = a.opposite();
    lemma_pow2_pos(23);
    lemma2_to64();
    assert(b.parts() == (!a.negative(), a.index()));
    assert(zero.parts() == (false, 0nat));
    assert(signed(24, a.negative(), a.index()) + signed(24, b.negative(), b.index()) == 0);
    assert((magnitude(24, 0) + magnitude(24, 1)) * pow2(0) > 0) by (nonlinear_arith)
        requires
            magnitude(24, 1) == 1,
            pow2(0) == 1,
    ;
    assert(is_sum(24, TOP32 as nat, a.parts(), b.parts(), zero.parts()));
    let r = a.sum(b);
    lemma_sum_unique(24, TOP32 as nat, a.parts(), b.parts(), r.parts(), zero.parts());
    F32::lemma_parts_injective(r, zero);
}

/// Zero over a number other than zero is zero.
pub proof fn lemma_zero_over(d: F32)
    requires
        !d.nan(),
        d.index() > 0,
    ensures
        (F32 { bits: 0 }).quotient(d).index() == 0,
{
    let zero = F32 { bits: 0 };
    let wanted = F32 {
        bits: if d.negative() {
            SIGN32
        } else {
            0
        },
    };
    lemma_pow2_pos(23);
    lemma_pow2_pos(149);
    lemma2_to64();
    assert(zero.parts() == (false, 0nat));
    assert(wanted.parts() == (d.negative(), 0nat));
    if d.finite() {
        assert(magnitude(24, 0) == 0);
        lemma_magnitude_increases(24, 0, d.index());
        assert(magnitude(24, 0) * pow2(149) == 0) by (nonlinear_arith)
            requires
                magnitude(24, 0) == 0,
        ;
        assert((magnitude(24, 0) + magnitude(24, 1)) * magnitude(24, d.index()) > 0)
            by (nonlinear_arith)
            requires
                magnitude(24, 0) == 0,
                magnitude(24, 1) == 1,
                magnitude(24, d.index()) > 0,
        ;
    }
    assert(is_quotient(24, TOP32 as nat, 149, zero.parts(), d.parts(), wanted.parts()));
    let r = zero.quotient(d);
    lemma_quotient_unique(
        24,
        TOP32 as nat,
        149,
        zero.parts(),
        d.parts(),
        r.parts(),
        wanted.parts(),
    );
}

/// Zero stays zero when it is widened.
pub proof fn lemma_zero_widened(a: F32)
    requires
        a.index() == 0,
    ensures
        a.widened().index() == 0,
        a.widened().negative() == a.negative(),
{
    let r = lemma_widened(a);
    lemma_pow2_pos(23);
    lemma_pow2_pos(52);
    lemma2_to64();
    assert(magnitude(24, 0) * pow2(925) == 0) by (nonlinear_arith)
        requires
            magnitude(24, 0) == 0,
    ;
    if r.index() > 0 {
        lemma_magnitude_increases(53, 0, r.index());
    }
}

} // verus!
