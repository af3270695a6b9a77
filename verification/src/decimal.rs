//! Binary floating-point numbers in decimal: the shortest text that reads back as the
//! number.
use vstd::arithmetic::power2::{lemma_pow2_pos, lemma_pow2_unfold, pow2};
use vstd::prelude::*;

use crate::division::nearest_ratio;
use crate::float::{
    decompose, is_format, lemma_magnitude_increases, lemma_magnitude_step, magnitude, F32, F64,
    TOP32, TOP64,
};
use crate::text::{dec, digit};

verus! {

/// A power of ten.
pub open spec fn ten(n: nat) -> nat
    decreases n,
{
    if n == 0 {
        1
    } else {
        10 * ten((n - 1) as nat)
    }
}

/// A power of five.
pub open spec fn five(n: nat) -> nat
    decreases n,
{
    if n == 0 {
        1
    } else {
        5 * five((n - 1) as nat)
    }
}

/// A binary format: how many bits a significand has, where infinity stands, and how
/// small the smallest positive number is: two to the power of `-unit`.
pub struct Format {
    pub precision: nat,
    pub top: nat,
    pub unit: nat,
}

/// The format of 32 bits.
pub open spec fn binary32() -> Format {
    Format { precision: 24, top: TOP32 as nat, unit: 149 }
}

/// The format of 64 bits.
pub open spec fn binary64() -> Format {
    Format { precision: 53, top: TOP64 as nat, unit: 1074 }
}

impl Format {
    /// Whether the decimal `n * 10^(k - unit - 1)` is nearer to the number with an index
    /// than to any other, so that it reads back as that number.
    pub open spec fn reads(self, n: nat, k: nat, index: nat) -> bool {
        nearest_ratio(
            self.precision,
            self.top,
            n * ten(k) * pow2(self.unit),
            ten(self.unit + 1),
            index,
        )
    }

    /// How far the decimal is from the number.
    pub open spec fn distance(self, n: nat, k: nat, index: nat) -> nat {
        let a = n * ten(k) * pow2(self.unit);
        let b = magnitude(self.precision, index) * ten(self.unit + 1);
        if a < b {
            (b - a) as nat
        } else {
            (a - b) as nat
        }
    }

    /// Whether the decimal `n * 10^(k - unit - 1)` is the shortest that reads back as the
    /// number with an index, and of those with as few digits the nearest, the greater of
    /// two that are as near.
    pub open spec fn is_shortest(self, n: nat, k: nat, index: nat) -> bool {
        &&& self.reads(n, k, index)
        &&& forall|m: nat, j: nat| j > k ==> !#[trigger] self.reads(m, j, index)
        &&& forall|m: nat|
            m != n && #[trigger] self.reads(m, k, index) ==> {
                ||| self.distance(n, k, index) < self.distance(m, k, index)
                ||| self.distance(n, k, index) == self.distance(m, k, index) && m < n
            }
    }

    /// The shortest decimal of the number with an index.
    pub open spec fn shortest(self, index: nat) -> (nat, nat) {
        choose|p: (nat, nat)| #[trigger] self.is_shortest(p.0, p.1, index)
    }
}

/// That many zeros.
pub open spec fn zeros(n: nat) -> Seq<char> {
    Seq::new(n, |i: int| '0')
}

/// The decimal `n * 10^e` without an exponent.
pub open spec fn plain(n: nat, e: int) -> Seq<char> {
    let digits = dec(n);
    if e >= 0 {
        digits + zeros(e as nat)
    } else if digits.len() > -e {
        digits.take(digits.len() + e) + seq!['.'] + digits.skip(digits.len() + e)
    } else {
        seq!['0', '.'] + zeros((-e - digits.len()) as nat) + digits
    }
}

/// A number's text, by its sign and index.
pub open spec fn number_text(f: Format, negative: bool, index: nat) -> Seq<char> {
    if index > f.top {
        "NaN"@
    } else {
        let sign = if negative {
            seq!['-']
        } else {
            Seq::empty()
        };
        sign + if index == f.top {
            "inf"@
        } else if index == 0 {
            seq!['0']
        } else {
            let (n, k) = f.shortest(index);
            plain(n, k - f.unit - 1)
        }
    }
}

impl F32 {
    /// The number in decimal: as few digits as read back as the number, without an
    /// exponent.
    pub open spec fn text(self) -> Seq<char> {
        number_text(binary32(), self.negative(), self.index())
    }
}

impl F64 {
    /// The number in decimal: as few digits as read back as the number, without an
    /// exponent.
    pub open spec fn text(self) -> Seq<char> {
        number_text(binary64(), self.negative(), self.index())
    }
}

/// The decimal digit at a place; none beyond the last.
pub open spec fn place(v: Seq<u8>, i: int) -> nat {
    if 0 <= i < v.len() {
        v[i] as nat
    } else {
        0
    }
}

/// What the lowest `n` digits count, the first lowest.
pub open spec fn low(v: Seq<u8>, n: nat) -> nat
    decreases n,
{
    if n == 0 {
        0
    } else {
        low(v, (n - 1) as nat) + place(v, n - 1) * ten((n - 1) as nat)
    }
}

/// What digits count.
pub open spec fn count(v: Seq<u8>) -> nat {
    low(v, v.len())
}

/// Whether all are decimal digits.
pub open spec fn are_digits(v: Seq<u8>) -> bool {
    forall|i: int| 0 <= i < v.len() ==> (#[trigger] v[i]) < 10
}

proof fn lemma_ten_pos(n: nat)
    ensures
        ten(n) > 0,
    decreases n,
{
    if n > 0 {
        lemma_ten_pos((n - 1) as nat);
    }
}

proof fn lemma_ten_adds(a: nat, b: nat)
    ensures
        ten(a + b) == ten(a) * ten(b),
    decreases a,
{
    if a > 0 {
        lemma_ten_adds((a - 1) as nat, b);
        let x = ten((a - 1) as nat);
        let y = ten(b);
        assert(10 * (x * y) == (10 * x) * y) by (nonlinear_arith);
    } else {
        assert(1 * ten(b) == ten(b));
    }
}

/// A power of ten is made of twos and fives.
proof fn lemma_ten_parts(n: nat)
    ensures
        ten(n) == pow2(n) * five(n),
    decreases n,
{
    vstd::arithmetic::power2::lemma2_to64();
    if n > 0 {
        let m = (n - 1) as nat;
        lemma_ten_parts(m);
        lemma_pow2_unfold(n);
        let a = pow2(m);
        let b = five(m);
        assert(10 * (a * b) == (2 * a) * (5 * b)) by (nonlinear_arith);
        assert(pow2(n) * five(n) == (2 * a) * (5 * b)) by (nonlinear_arith)
            requires
                pow2(n) == 2 * a,
                five(n) == 5 * b,
        ;
    } else {
        assert(pow2(n) * five(n) == 1) by (nonlinear_arith)
            requires
                pow2(n) == 1,
                five(n) == 1,
        ;
    }
}

proof fn lemma_low_bound(v: Seq<u8>, n: nat)
    requires
        are_digits(v),
    ensures
        low(v, n) < ten(n),
    decreases n,
{
    if n > 0 {
        let m = (n - 1) as nat;
        lemma_low_bound(v, m);
        let d = place(v, n - 1);
        assert(d <= 9);
        let t = ten(m);
        assert(d * t <= 9 * t) by (nonlinear_arith)
            requires
                d <= 9,
        ;
    }
}

proof fn lemma_low_same(a: Seq<u8>, b: Seq<u8>, n: nat)
    requires
        forall|i: int| 0 <= i < n ==> #[trigger] place(a, i) == place(b, i),
    ensures
        low(a, n) == low(b, n),
    decreases n,
{
    if n > 0 {
        lemma_low_same(a, b, (n - 1) as nat);
        assert(place(a, n - 1) == place(b, n - 1));
    }
}

/// Digits beyond the last count nothing.
proof fn lemma_low_beyond(v: Seq<u8>, n: nat)
    requires
        n >= v.len(),
    ensures
        low(v, n) == count(v),
    decreases n,
{
    if n > v.len() {
        lemma_low_beyond(v, (n - 1) as nat);
        assert(place(v, n - 1) == 0);
        assert(0 * ten((n - 1) as nat) == 0);
    }
}

/// The digits of a machine number.
fn digits_of(n: u64) -> (r: Vec<u8>)
    ensures
        are_digits(r@),
        count(r@) == n,
        r@.len() <= 20,
{
    let mut out: Vec<u8> = Vec::new();
    let mut rest: u64 = n;
    assert(ten(0) == 1);
    assert(rest * 1 == rest);
    while rest > 0
        invariant
            are_digits(out@),
            count(out@) + rest * ten(out@.len()) == n,
            out@.len() <= 20,
            ten(out@.len()) * rest <= n,
            n <= 0xffff_ffff_ffff_ffff,
        decreases rest,
    {
        let ghost before = out@;
        let ghost len = out@.len();
        proof {
            if len == 20 {
                reveal_with_fuel(ten, 21);
                assert(ten(20) == 100000000000000000000);
                assert(ten(20) * rest >= ten(20)) by (nonlinear_arith)
                    requires
                        rest >= 1,
                        ten(20) > 0,
                ;
                assert(false);
            }
        }
        let d: u8 = (rest % 10) as u8;
        let ghost old_rest = rest as nat;
        out.push(d);
        rest = rest / 10;
        proof {
            lemma_low_same(before, out@, len);
            let t = ten(len);
            let q = rest as nat;
            assert(old_rest == 10 * q + d);
            assert((10 * q + d) * t == d * t + q * (10 * t)) by (nonlinear_arith);
            assert(place(out@, len as int) == d);
            assert(count(out@) == low(out@, len) + d * t);
            assert(ten((len + 1) as nat) == 10 * t);
            assert(q * (10 * t) == (10 * t) * q) by (nonlinear_arith);
        }
    }
    assert(0 * ten(out@.len()) == 0);
    out
}

/// Digits times a small number.
fn times_small(v: &Vec<u8>, m: u8) -> (r: Vec<u8>)
    requires
        are_digits(v@),
        1 <= m <= 10,
        v@.len() < usize::MAX,
    ensures
        are_digits(r@),
        count(r@) == m * count(v@),
        r@.len() <= v@.len() + 1,
{
    let mut out: Vec<u8> = Vec::new();
    let mut carry: u8 = 0;
    let mut i: usize = 0;
    assert(m * 0 == 0) by (nonlinear_arith);
    while i < v.len()
        invariant
            i <= v@.len(),
            are_digits(v@),
            are_digits(out@),
            out@.len() == i,
            1 <= m <= 10,
            carry < 10,
            count(out@) + carry * ten(i as nat) == m * low(v@, i as nat),
        decreases v@.len() - i,
    {
        let ghost before = out@;
        let ghost old_carry = carry;
        let d: u8 = v[i];
        assert(m * d <= 90) by (nonlinear_arith)
            requires
                m <= 10,
                d <= 9,
        ;
        let sum: u8 = m * d + carry;
        out.push(sum % 10);
        carry = sum / 10;
        proof {
            lemma_low_same(before, out@, i as nat);
            let t = ten(i as nat);
            let s = sum as nat;
            let low_digit = (s % 10) as nat;
            let high = (s / 10) as nat;
            assert(s == 10 * high + low_digit);
            assert(place(out@, i as int) == low_digit);
            assert(place(v@, i as int) == d);
            let l = low(v@, i as nat);
            assert(m * (l + d * t) == m * l + (m * d) * t) by (nonlinear_arith);
            assert(s * t == (m * d) * t + old_carry * t) by (nonlinear_arith)
                requires
                    s == m * d + old_carry,
            ;
            assert((10 * high + low_digit) * t == low_digit * t + high * (10 * t))
                by (nonlinear_arith);
        }
        i += 1;
    }
    if carry > 0 {
        let ghost before = out@;
        out.push(carry);
        proof {
            lemma_low_same(before, out@, before.len());
            assert(place(out@, before.len() as int) == carry);
        }
    } else {
        assert(0 * ten(i as nat) == 0);
    }
    out
}

/// Compares digits: whether the first count less, and whether both count the same.
fn compare(a: &Vec<u8>, b: &Vec<u8>) -> (r: (bool, bool))
    requires
        are_digits(a@),
        are_digits(b@),
    ensures
        r.0 == (count(a@) < count(b@)),
        r.1 == (count(a@) == count(b@)),
{
    let n: usize = if a.len() < b.len() {
        b.len()
    } else {
        a.len()
    };
    let mut less: bool = false;
    let mut same: bool = true;
    let mut i: usize = 0;
    while i < n
        invariant
            i <= n,
            are_digits(a@),
            are_digits(b@),
            less == (low(a@, i as nat) < low(b@, i as nat)),
            same == (low(a@, i as nat) == low(b@, i as nat)),
        decreases n - i,
    {
        let x: u8 = if i < a.len() {
            a[i]
        } else {
            0
        };
        let y: u8 = if i < b.len() {
            b[i]
        } else {
            0
        };
        proof {
            lemma_low_bound(a@, i as nat);
            lemma_low_bound(b@, i as nat);
            let t = ten(i as nat);
            assert(place(a@, i as int) == x && place(b@, i as int) == y);
            assert(x < y ==> x * t + t <= y * t) by (nonlinear_arith);
            assert(y < x ==> y * t + t <= x * t) by (nonlinear_arith);
        }
        if x != y {
            less = x < y;
            same = false;
        }
        i += 1;
    }
    proof {
        lemma_low_beyond(a@, n as nat);
        lemma_low_beyond(b@, n as nat);
    }
    (less, same)
}

/// What digits count from a place on.
pub open spec fn high(v: Seq<u8>, k: nat) -> nat {
    count(v.skip(k as int))
}

proof fn lemma_low_high(v: Seq<u8>, k: nat, n: nat)
    requires
        k <= n <= v.len(),
    ensures
        low(v, n) == low(v, k) + low(v.skip(k as int), (n - k) as nat) * ten(k),
    decreases n,
{
    if n == k {
        assert(0 * ten(k) == 0);
    } else {
        let m = (n - 1) as nat;
        lemma_low_high(v, k, m);
        let rest = v.skip(k as int);
        let d = place(v, n - 1);
        assert(place(rest, n - 1 - k) == d);
        let a = low(rest, (m - k) as nat);
        let t = ten((m - k) as nat);
        let u = ten(k);
        lemma_ten_adds((m - k) as nat, k);
        assert((a + d * t) * u == a * u + d * (t * u)) by (nonlinear_arith);
    }
}

proof fn lemma_split(v: Seq<u8>, k: nat)
    requires
        are_digits(v),
        k <= v.len(),
    ensures
        count(v) == low(v, k) + high(v, k) * ten(k),
        low(v, k) < ten(k),
{
    lemma_low_high(v, k, v.len());
    lemma_low_bound(v, k);
}

/// Digits with so many zeros below.
fn raised(v: &Vec<u8>, from: usize, k: usize) -> (r: Vec<u8>)
    requires
        are_digits(v@),
        from <= v@.len(),
    ensures
        are_digits(r@),
        count(r@) == high(v@, from as nat) * ten(k as nat),
{
    let mut out: Vec<u8> = Vec::new();
    let mut i: usize = 0;
    while i < k
        invariant
            i <= k,
            out@.len() == i,
            forall|j: int| 0 <= j < i ==> out@[j] == 0,
        decreases k - i,
    {
        out.push(0);
        i += 1;
    }
    let ghost zeros = out@;
    i = from;
    while i < v.len()
        invariant
            from <= i <= v@.len(),
            are_digits(v@),
            out@ == zeros + v@.subrange(from as int, i as int),
        decreases v@.len() - i,
    {
        out.push(v[i]);
        i += 1;
        assert(out@ =~= zeros + v@.subrange(from as int, i as int));
    }
    proof {
        let rest = v@.skip(from as int);
        assert(out@ =~= zeros + rest);
        assert forall|j: int| 0 <= j < out@.len() implies (#[trigger] out@[j]) < 10 by {
            if j >= zeros.len() {
                assert(out@[j] == rest[j - zeros.len()]);
            }
        }
        lemma_split(out@, k as nat);
        assert(out@.skip(k as int) =~= rest);
        lemma_low_zero(out@, k as nat);
    }
    out
}

proof fn lemma_low_zero(v: Seq<u8>, n: nat)
    requires
        forall|i: int| 0 <= i < n ==> #[trigger] place(v, i) == 0,
    ensures
        low(v, n) == 0,
    decreases n,
{
    if n > 0 {
        lemma_low_zero(v, (n - 1) as nat);
        assert(place(v, n - 1) == 0);
        assert(0 * ten((n - 1) as nat) == 0);
    }
}

/// The digits from a place on.
fn upper(v: &Vec<u8>, from: usize) -> (r: Vec<u8>)
    requires
        are_digits(v@),
        from <= v@.len(),
    ensures
        are_digits(r@),
        r@ == v@.skip(from as int),
        count(r@) == high(v@, from as nat),
{
    let mut out: Vec<u8> = Vec::new();
    let mut i: usize = from;
    while i < v.len()
        invariant
            from <= i <= v@.len(),
            are_digits(v@),
            out@ == v@.subrange(from as int, i as int),
        decreases v@.len() - i,
    {
        out.push(v[i]);
        i += 1;
        assert(out@ =~= v@.subrange(from as int, i as int));
    }
    assert(out@ =~= v@.skip(from as int));
    out
}

/// Digits of one more.
fn incremented(v: &Vec<u8>) -> (r: Vec<u8>)
    requires
        are_digits(v@),
    ensures
        are_digits(r@),
        count(r@) == count(v@) + 1,
{
    let mut out: Vec<u8> = Vec::new();
    let mut carry: u8 = 1;
    let mut i: usize = 0;
    assert(ten(0) == 1);
    while i < v.len()
        invariant
            i <= v@.len(),
            are_digits(v@),
            are_digits(out@),
            out@.len() == i,
            carry <= 1,
            count(out@) + carry * ten(i as nat) == low(v@, i as nat) + 1,
        decreases v@.len() - i,
    {
        let ghost before = out@;
        let ghost old_carry = carry as nat;
        let sum: u8 = v[i] + carry;
        let d: u8 = if sum == 10 {
            0
        } else {
            sum
        };
        out.push(d);
        carry = if sum == 10 {
            1
        } else {
            0
        };
        proof {
            lemma_low_same(before, out@, i as nat);
            let t = ten(i as nat);
            let x = v@[i as int] as nat;
            assert(place(out@, i as int) == d && place(v@, i as int) == x);
            assert(x + old_carry == d + 10 * carry);
            assert((x + old_carry) * t == x * t + old_carry * t) by (nonlinear_arith);
            assert((d + 10 * carry) * t == d * t + carry * (10 * t)) by (nonlinear_arith);
        }
        i += 1;
    }
    if carry > 0 {
        let ghost before = out@;
        out.push(carry);
        proof {
            lemma_low_same(before, out@, before.len());
            assert(place(out@, before.len() as int) == carry);
        }
    } else {
        assert(0 * ten(i as nat) == 0);
    }
    out
}

/// A number times powers of two and five.
fn scaled(x: u64, twos: u32, fives: u32) -> (r: Vec<u8>)
    requires
        twos <= 4000,
        fives <= 4000,
    ensures
        are_digits(r@),
        count(r@) == x * pow2(twos as nat) * five(fives as nat),
        r@.len() <= 9000,
{
    let mut v: Vec<u8> = digits_of(x);
    let mut i: u32 = 0;
    proof {
        vstd::arithmetic::power2::lemma2_to64();
        assert(x * 1 == x);
    }
    while i < twos
        invariant
            i <= twos,
            twos <= 4000,
            are_digits(v@),
            v@.len() <= 20 + i,
            count(v@) == x * pow2(i as nat),
        decreases twos - i,
    {
        v = times_small(&v, 2);
        proof {
            lemma_pow2_unfold((i + 1) as nat);
            let a = pow2(i as nat);
            assert(2 * (x * a) == x * (2 * a)) by (nonlinear_arith);
        }
        i += 1;
    }
    let ghost base = count(v@);
    i = 0;
    assert(base * 1 == base);
    assert(five(0) == 1);
    while i < fives
        invariant
            i <= fives,
            fives <= 4000,
            are_digits(v@),
            v@.len() <= 4020 + i,
            count(v@) == base * five(i as nat),
        decreases fives - i,
    {
        v = times_small(&v, 5);
        proof {
            let a = five(i as nat);
            assert(5 * (base * a) == base * (5 * a)) by (nonlinear_arith);
            assert(five((i + 1) as nat) == 5 * a);
        }
        i += 1;
    }
    v
}

impl Format {
    /// The upper midpoint, in units of ten to the power of `-unit - 1`.
    pub open spec fn above(self, index: nat) -> nat {
        (magnitude(self.precision, index) + magnitude(self.precision, index + 1)) * five(
            self.unit + 1,
        )
    }

    /// The lower midpoint, in units of ten to the power of `-unit - 1`.
    pub open spec fn below(self, index: nat) -> nat {
        (magnitude(self.precision, (index - 1) as nat) + magnitude(self.precision, index)) * five(
            self.unit + 1,
        )
    }

    /// The number, in units of ten to the power of `-unit - 1`.
    pub open spec fn middle(self, index: nat) -> nat {
        2 * magnitude(self.precision, index) * five(self.unit + 1)
    }

    /// Whether a count of such units lies between the midpoints.
    pub open spec fn holds(self, c: nat, index: nat) -> bool {
        &&& c < self.above(index) || (c == self.above(index) && index % 2 == 0)
        &&& c > self.below(index) || (c == self.below(index) && index % 2 == 0)
    }

    proof fn lemma_reads(self, n: nat, k: nat, index: nat)
        requires
            0 < index < self.top,
        ensures
            self.reads(n, k, index) == self.holds(n * ten(k), index),
    {
        let c = n * ten(k);
        let p = pow2(self.unit);
        let f = five(self.unit + 1);
        lemma_pow2_pos(self.unit);
        lemma_ten_parts(self.unit + 1);
        lemma_pow2_unfold(self.unit + 1);
        assert(ten(self.unit + 1) == (2 * p) * f);
        lemma_cancel(
            c,
            magnitude(self.precision, index) + magnitude(self.precision, index + 1),
            f,
            p,
        );
        lemma_cancel(
            c,
            magnitude(self.precision, (index - 1) as nat) + magnitude(self.precision, index),
            f,
            p,
        );
    }

    proof fn lemma_distance(self, n: nat, k: nat, index: nat)
        ensures
            self.distance(n, k, index) == pow2(self.unit) * (if n * ten(k) < self.middle(index) {
                self.middle(index) - n * ten(k)
            } else {
                n * ten(k) - self.middle(index)
            }),
            pow2(self.unit) > 0,
    {
        let c = n * ten(k);
        let p = pow2(self.unit);
        let f = five(self.unit + 1);
        let m = magnitude(self.precision, index);
        lemma_pow2_pos(self.unit);
        lemma_ten_parts(self.unit + 1);
        lemma_pow2_unfold(self.unit + 1);
        assert(ten(self.unit + 1) == (2 * p) * f);
        let x = 2 * m * f;
        assert(m * ((2 * p) * f) == p * x) by (nonlinear_arith)
            requires
                x == 2 * m * f,
        ;
        assert(c * p == p * c) by (nonlinear_arith);
        assert(c < x ==> p * c < p * x) by (nonlinear_arith)
            requires
                p > 0,
        ;
        assert(c >= x ==> p * c >= p * x) by (nonlinear_arith)
            requires
                p > 0,
        ;
        assert(p * (x - c) == p * x - p * c) by (nonlinear_arith);
        assert(p * (c - x) == p * c - p * x) by (nonlinear_arith);
    }

    /// There is at most one shortest decimal.
    pub proof fn lemma_shortest_unique(self, index: nat, a: (nat, nat), b: (nat, nat))
        requires
            self.is_shortest(a.0, a.1, index),
            self.is_shortest(b.0, b.1, index),
        ensures
            a == b,
    {
        if a.1 < b.1 {
            assert(!self.reads(b.0, b.1, index));
        }
        if b.1 < a.1 {
            assert(!self.reads(a.0, a.1, index));
        }
        if a.0 != b.0 {
            assert(self.reads(b.0, a.1, index));
            assert(self.reads(a.0, b.1, index));
        }
    }
}

proof fn lemma_cancel(c: nat, s: nat, f: nat, p: nat)
    requires
        p > 0,
    ensures
        (2 * (c * p) < s * ((2 * p) * f)) == (c < s * f),
        (2 * (c * p) == s * ((2 * p) * f)) == (c == s * f),
        (2 * (c * p) > s * ((2 * p) * f)) == (c > s * f),
{
    let x = s * f;
    assert(s * ((2 * p) * f) == (2 * p) * x) by (nonlinear_arith)
        requires
            x == s * f,
    ;
    assert(2 * (c * p) == (2 * p) * c) by (nonlinear_arith);
    assert(c < x ==> (2 * p) * c < (2 * p) * x) by (nonlinear_arith)
        requires
            p > 0,
    ;
    assert(c > x ==> (2 * p) * c > (2 * p) * x) by (nonlinear_arith)
        requires
            p > 0,
    ;
}

/// The midpoints around a number and the number itself, in decimal digits.
struct Bounds {
    lower: Vec<u8>,
    number: Vec<u8>,
    upper: Vec<u8>,
}

fn bounds_of(precision: u32, top: u64, unit: u32, index: u64) -> (r: Bounds)
    requires
        is_format(precision as nat, top as nat),
        unit <= 1074,
        0 < index < top,
    ensures
        ({
            let f = Format { precision: precision as nat, top: top as nat, unit: unit as nat };
            &&& are_digits(r.lower@) && are_digits(r.number@) && are_digits(r.upper@)
            &&& count(r.lower@) == f.below(index as nat)
            &&& count(r.number@) == f.middle(index as nat)
            &&& count(r.upper@) == f.above(index as nat)
            &&& 0 < f.below(index as nat) < f.middle(index as nat) < f.above(index as nat)
            &&& r.number@.len() <= 9000
        }),
{
    let (m, shift) = decompose(precision, top, index);
    let (_before, shift_before) = decompose(precision, top, index - 1);
    let ghost p = precision as nat;
    let ghost i = index as nat;
    let ghost half = pow2((p - 1) as nat);
    proof {
        lemma_pow2_pos((p - 1) as nat);
        let up = lemma_magnitude_step(p, i);
        let down = lemma_magnitude_step(p, (i - 1) as nat);
        assert(up == shift && down == shift_before);
        assert(shift_before <= shift <= shift_before + 1) by {
            if i >= 2 * half {
                assert((i - 1) / (half as int) <= i / half <= (i - 1) / (half as int) + 1)
                    by (nonlinear_arith)
                    requires
                        half > 0,
                        i >= 1,
                ;
                if i - 1 < 2 * half {
                    assert(i == 2 * half);
                    assert((2 * half) / half == 2) by (nonlinear_arith)
                        requires
                            half > 0,
                    ;
                }
            }
        }
    }
    let double: bool = shift > shift_before;
    let number: u64 = if double {
        4 * m
    } else {
        2 * m
    };
    let step: u64 = if double {
        2
    } else {
        1
    };
    let fives: u32 = unit + 1;
    proof {
        let a = pow2(shift_before as nat);
        let b = pow2(shift as nat);
        lemma_pow2_pos(shift_before as nat);
        if double {
            lemma_pow2_unfold(shift as nat);
            assert(b == 2 * a);
            assert((4 * m) * a == 2 * (m * (2 * a))) by (nonlinear_arith);
        } else {
            assert((2 * m) * a == 2 * (m * a)) by (nonlinear_arith);
        }
        let x = magnitude(p, i);
        assert(number * a == 2 * x);
        assert(step * a == b) by {
            assert(1 * a == a);
        }
        assert((number + step) * a == number * a + step * a) by (nonlinear_arith);
        assert(m > 0);
        assert((number - 1) * a == number * a - a) by (nonlinear_arith);
        let f = five((unit + 1) as nat);
        lemma_five_pos((unit + 1) as nat);
        let lo = magnitude(p, (i - 1) as nat) + x;
        let hi = x + magnitude(p, i + 1);
        if i > 1 {
            lemma_magnitude_increases(p, 0, (i - 1) as nat);
        }
        lemma_magnitude_increases(p, 0, i);
        assert(0 < lo * f && lo * f < (2 * x) * f && (2 * x) * f < hi * f) by (nonlinear_arith)
            requires
                0 < lo < 2 * x,
                2 * x < hi,
                f > 0,
        ;
    }
    Bounds {
        lower: scaled(number - 1, shift_before, fives),
        number: scaled(number, shift_before, fives),
        upper: scaled(number + step, shift_before, fives),
    }
}

proof fn lemma_five_pos(n: nat)
    ensures
        five(n) > 0,
    decreases n,
{
    if n > 0 {
        lemma_five_pos((n - 1) as nat);
    }
}

/// What is left of a count without its lowest `k` digits.
spec fn cut(v: Seq<u8>, k: nat) -> nat {
    if k <= v.len() {
        high(v, k)
    } else {
        0
    }
}

proof fn lemma_cut(v: Seq<u8>, k: nat)
    requires
        are_digits(v),
    ensures
        cut(v, k) * ten(k) <= count(v) < (cut(v, k) + 1) * ten(k),
{
    lemma_ten_pos(k);
    let n = cut(v, k);
    let t = ten(k);
    assert((n + 1) * t == n * t + t) by (nonlinear_arith);
    if k <= v.len() {
        lemma_split(v, k);
    } else {
        lemma_low_beyond(v, k);
        lemma_low_bound(v, k);
        assert(0 * t == 0);
    }
}

/// Where no multiple of a power of ten on either side of a number lies between the
/// midpoints, none does.
proof fn lemma_none_reads(f: Format, index: nat, n: nat, k: nat)
    requires
        0 < index < f.top,
        f.below(index) < f.middle(index) < f.above(index),
        n * ten(k) <= f.middle(index) < (n + 1) * ten(k),
        !f.holds(n * ten(k), index),
        !f.holds((n + 1) * ten(k), index),
    ensures
        forall|m: nat| !#[trigger] f.reads(m, k, index),
{
    assert forall|m: nat| !#[trigger] f.reads(m, k, index) by {
        f.lemma_reads(m, k, index);
        lemma_side(m, n, ten(k));
    }
}

proof fn lemma_side(m: nat, n: nat, t: nat)
    ensures
        m <= n ==> m * t <= n * t,
        m >= n + 1 ==> m * t >= (n + 1) * t,
        m < n && t > 0 ==> m * t < n * t,
        m > n + 1 && t > 0 ==> m * t > (n + 1) * t,
{
    assert(m <= n ==> m * t <= n * t) by (nonlinear_arith);
    assert(m >= n + 1 ==> m * t >= (n + 1) * t) by (nonlinear_arith);
    assert(m < n && t > 0 ==> m * t < n * t) by (nonlinear_arith);
    assert(m > n + 1 && t > 0 ==> m * t > (n + 1) * t) by (nonlinear_arith);
}

proof fn lemma_farther(p: nat, a: int, b: int)
    requires
        p > 0,
    ensures
        a < b ==> p * a < p * b,
        a == b ==> p * a == p * b,
        a <= b ==> p * a <= p * b,
{
    assert(a < b ==> p * a < p * b) by (nonlinear_arith)
        requires
            p > 0,
    ;
}

/// The nearer of the two multiples that lie between the midpoints is the shortest
/// decimal.
proof fn lemma_found(f: Format, index: nat, n: nat, k: nat, up: bool)
    requires
        0 < index < f.top,
        f.below(index) < f.middle(index) < f.above(index),
        n * ten(k) <= f.middle(index) < (n + 1) * ten(k),
        f.holds(n * ten(k), index) || f.holds((n + 1) * ten(k), index),
        up == (f.holds((n + 1) * ten(k), index) && (!f.holds(n * ten(k), index) || n * ten(k) + (n
            + 1) * ten(k) <= 2 * f.middle(index))),
        forall|m: nat, j: nat| j > k ==> !#[trigger] f.reads(m, j, index),
    ensures
        f.is_shortest(
            if up {
                n + 1
            } else {
                n
            },
            k,
            index,
        ),
{
    let chosen: nat = if up {
        n + 1
    } else {
        n
    };
    let t = ten(k);
    let mid = f.middle(index);
    let p = pow2(f.unit);
    lemma_ten_pos(k);
    f.lemma_reads(chosen, k, index);
    f.lemma_distance(chosen, k, index);
    assert forall|m: nat| m != chosen && #[trigger] f.reads(m, k, index) implies {
        ||| f.distance(chosen, k, index) < f.distance(m, k, index)
        ||| f.distance(chosen, k, index) == f.distance(m, k, index) && m < chosen
    } by {
        f.lemma_reads(m, k, index);
        f.lemma_distance(m, k, index);
        lemma_side(m, n, t);
        let c = m * t;
        let own = if chosen * t < mid {
            mid - chosen * t
        } else {
            chosen * t - mid
        };
        let other = if c < mid {
            mid - c
        } else {
            c - mid
        };
        lemma_farther(p, own, other);
    }
}

/// The digits of the shortest decimal of a number, and its power of ten.
fn shortest_of(precision: u32, top: u64, unit: u32, index: u64) -> (r: (Vec<u8>, usize))
    requires
        is_format(precision as nat, top as nat),
        unit <= 1074,
        0 < index < top,
    ensures
        ({
            let f = Format { precision: precision as nat, top: top as nat, unit: unit as nat };
            &&& are_digits(r.0@)
            &&& f.is_shortest(count(r.0@), r.1 as nat, index as nat)
            &&& (count(r.0@), r.1 as nat) == f.shortest(index as nat)
        }),
{
    let ghost f = Format { precision: precision as nat, top: top as nat, unit: unit as nat };
    let ghost i = index as nat;
    let b: Bounds = bounds_of(precision, top, unit, index);
    let even: bool = index % 2 == 0;
    let mut k: usize = b.upper.len();
    proof {
        assert forall|m: nat, j: nat| j >= k implies !#[trigger] f.reads(m, j, i) by {
            f.lemma_reads(m, j, i);
            lemma_low_beyond(b.upper@, j);
            lemma_low_bound(b.upper@, j);
            lemma_ten_pos(j);
            let t = ten(j);
            assert(m == 0 ==> m * t == 0);
            assert(m >= 1 ==> m * t >= t) by (nonlinear_arith);
        }
    }
    loop
        invariant
            f == (Format { precision: precision as nat, top: top as nat, unit: unit as nat }),
            i == index,
            0 < index < top,
            even == (index % 2 == 0),
            are_digits(b.lower@) && are_digits(b.number@) && are_digits(b.upper@),
            count(b.lower@) == f.below(i),
            count(b.number@) == f.middle(i),
            count(b.upper@) == f.above(i),
            f.below(i) < f.middle(i) < f.above(i),
            b.number@.len() <= 9000,
            forall|m: nat, j: nat| j >= k ==> !#[trigger] f.reads(m, j, i),
        decreases k,
    {
        proof {
            if k == 0 {
                let m = f.middle(i);
                f.lemma_reads(m, 0, i);
                assert(ten(0) == 1);
                assert(m * 1 == m);
                assert(f.reads(m, 0, i));
            }
        }
        k -= 1;
        let from: usize = if k <= b.number.len() {
            k
        } else {
            b.number.len()
        };
        let down_digits: Vec<u8> = upper(&b.number, from);
        let ghost n = cut(b.number@, k as nat);
        proof {
            lemma_cut(b.number@, k as nat);
            if k > b.number@.len() {
                assert(b.number@.skip(from as int) =~= Seq::empty());
            }
            assert(count(down_digits@) == n);
            assert(down_digits@.skip(0) =~= down_digits@);
        }
        let down: Vec<u8> = raised(&down_digits, 0, k);
        let up_digits: Vec<u8> = incremented(&down_digits);
        assert(up_digits@.skip(0) =~= up_digits@);
        let up: Vec<u8> = raised(&up_digits, 0, k);
        let (below, at_lower) = compare(&b.lower, &down);
        let down_reads: bool = below || (at_lower && even);
        let (above, at_upper) = compare(&up, &b.upper);
        let up_reads: bool = above || (at_upper && even);
        assert(down_reads == f.holds(n * ten(k as nat), i));
        assert(up_reads == f.holds((n + 1) * ten(k as nat), i));
        if down_reads || up_reads {
            let nearer_up: bool = if up_reads && down_reads {
                let twice: Vec<u8> = times_small(&b.number, 2);
                let odd: Vec<u8> = incremented(&times_small(&down_digits, 2));
                assert(odd@.skip(0) =~= odd@);
                let sum: Vec<u8> = raised(&odd, 0, k);
                assert((2 * n + 1) * ten(k as nat) == n * ten(k as nat) + (n + 1) * ten(k as nat))
                    by (nonlinear_arith);
                let (less, _same) = compare(&twice, &sum);
                !less
            } else {
                up_reads
            };
            proof {
                lemma_found(f, i, n, k as nat, nearer_up);
            }
            let digits: Vec<u8> = if nearer_up {
                up_digits
            } else {
                down_digits
            };
            proof {
                let found = (count(digits@), k as nat);
                assert(f.is_shortest(found.0, found.1, i));
                f.lemma_shortest_unique(i, found, f.shortest(i));
            }
            return (digits, k);
        }
        proof {
            lemma_none_reads(f, i, n, k as nat);
        }
    }
}

proof fn lemma_high_step(v: Seq<u8>, i: nat)
    requires
        are_digits(v),
        i < v.len(),
    ensures
        high(v, i) == v[i as int] + 10 * high(v, i + 1),
        are_digits(v.skip(i as int)),
{
    let rest = v.skip(i as int);
    assert forall|j: int| 0 <= j < rest.len() implies (#[trigger] rest[j]) < 10 by {
        assert(rest[j] == v[i + j]);
    }
    lemma_split(rest, 1);
    assert(rest.skip(1) =~= v.skip((i + 1) as int));
    reveal_with_fuel(low, 2);
    reveal_with_fuel(ten, 2);
    assert(ten(0) == 1 && ten(1) == 10);
    assert(place(rest, 0) == v[i as int]);
    assert(low(rest, 1) == place(rest, 0) * 1);
}

/// The text of digits, without leading zeros.
fn digits_text(v: &Vec<u8>) -> (r: Vec<char>)
    requires
        are_digits(v@),
        count(v@) > 0,
    ensures
        r@ == dec(count(v@)),
{
    let mut i: usize = v.len();
    let mut out: Vec<char> = Vec::new();
    assert(v@.skip(i as int) =~= Seq::empty());
    while i > 0
        invariant
            i <= v@.len(),
            are_digits(v@),
            high(v@, i as nat) == 0 ==> out@.len() == 0,
            high(v@, i as nat) > 0 ==> out@ == dec(high(v@, i as nat)) && out@.len() > 0,
        decreases i,
    {
        i -= 1;
        let ghost above = high(v@, (i + 1) as nat);
        let ghost text = out@;
        proof {
            lemma_high_step(v@, i as nat);
        }
        let d: u8 = v[i];
        let ghost here = high(v@, i as nat);
        if out.len() > 0 || d > 0 {
            out.push((48 + d) as char);
            proof {
                assert((48 + d) as char == digit(d as nat));
                if above == 0 {
                    assert(here == d);
                    assert(out@ =~= dec(here));
                } else {
                    assert(here / 10 == above && here % 10 == d);
                }
            }
        }
    }
    assert(v@.skip(0) =~= v@);
    out
}

fn push_chars(s: &mut String, chars: &Vec<char>, from: usize, to: usize)
    requires
        from <= to <= chars@.len(),
    ensures
        final(s)@ == old(s)@ + chars@.subrange(from as int, to as int),
{
    let ghost before = s@;
    let mut i: usize = from;
    assert(s@ =~= before + chars@.subrange(from as int, from as int));
    while i < to
        invariant
            from <= i <= to <= chars@.len(),
            s@ == before + chars@.subrange(from as int, i as int),
        decreases to - i,
    {
        s.push(chars[i]);
        i += 1;
        assert(s@ =~= before + chars@.subrange(from as int, i as int));
    }
}

fn push_zeros(s: &mut String, n: usize)
    ensures
        final(s)@ == old(s)@ + zeros(n as nat),
{
    let ghost before = s@;
    let mut i: usize = 0;
    assert(s@ =~= before + zeros(0));
    while i < n
        invariant
            i <= n,
            s@ == before + zeros(i as nat),
        decreases n - i,
    {
        s.push('0');
        i += 1;
        assert(s@ =~= before + zeros(i as nat));
    }
}

/// Appends a decimal without an exponent: digits times ten to the power of `k - below`.
fn push_plain(s: &mut String, digits: &Vec<char>, k: usize, below: usize, Ghost(n): Ghost<nat>)
    requires
        digits@ == dec(n),
    ensures
        final(s)@ == old(s)@ + plain(n, k - below),
{
    let ghost before = s@;
    let len: usize = digits.len();
    if k >= below {
        push_chars(s, digits, 0, len);
        push_zeros(s, k - below);
        assert(digits@.subrange(0, len as int) =~= digits@);
        assert(s@ =~= before + plain(n, k - below));
    } else {
        let fraction: usize = below - k;
        if len > fraction {
            push_chars(s, digits, 0, len - fraction);
            s.push('.');
            push_chars(s, digits, len - fraction, len);
            assert(digits@.subrange(0, len - fraction) =~= digits@.take(len - fraction));
            assert(digits@.subrange(len - fraction, len as int) =~= digits@.skip(len - fraction));
            assert(s@ =~= before + plain(n, k - below));
        } else {
            s.push('0');
            s.push('.');
            push_zeros(s, fraction - len);
            push_chars(s, digits, 0, len);
            assert(digits@.subrange(0, len as int) =~= digits@);
            assert(s@ =~= before + plain(n, k - below));
        }
    }
}

/// Appends a number's text, by its sign and index.
fn push_number(
    s: &mut String,
    precision: u32,
    top: u64,
    unit: u32,
    negative: bool,
    index: u64,
)
    requires
        is_format(precision as nat, top as nat),
        unit <= 1074,
    ensures
        final(s)@ == old(s)@ + number_text(
            Format { precision: precision as nat, top: top as nat, unit: unit as nat },
            negative,
            index as nat,
        ),
{
    let ghost f = Format { precision: precision as nat, top: top as nat, unit: unit as nat };
    let ghost before = s@;
    let ghost wanted = number_text(f, negative, index as nat);
    if index > top {
        s.append("NaN");
        return ;
    }
    if negative {
        s.push('-');
    }
    if index == top {
        s.append("inf");
        assert(s@ =~= before + wanted);
    } else if index == 0 {
        s.push('0');
        assert(s@ =~= before + wanted);
    } else {
        let (digits, k) = shortest_of(precision, top, unit, index);
        proof {
            f.lemma_shortest_positive(count(digits@), k as nat, index as nat);
        }
        let text: Vec<char> = digits_text(&digits);
        push_plain(s, &text, k, unit as usize + 1, Ghost(count(digits@)));
        assert(s@ =~= before + wanted);
    }
}

impl Format {
    proof fn lemma_shortest_positive(self, n: nat, k: nat, index: nat)
        requires
            self.precision >= 2,
            0 < index < self.top,
            self.is_shortest(n, k, index),
        ensures
            n > 0,
    {
        self.lemma_reads(n, k, index);
        lemma_magnitude_increases(self.precision, 0, index);
        lemma_five_pos(self.unit + 1);
        let s = magnitude(self.precision, (index - 1) as nat) + magnitude(self.precision, index);
        let f = five(self.unit + 1);
        assert(s * f > 0) by (nonlinear_arith)
            requires
                s > 0,
                f > 0,
        ;
        if n == 0 {
            assert(0 * ten(k) == 0);
        }
    }
}

impl F32 {
    /// Appends the number in decimal.
    pub fn push_text(self, s: &mut String)
        ensures
            final(s)@ == old(s)@ + self.text(),
    {
        let (negative, index) = self.split();
        push_number(s, 24, TOP32 as u64, 149, negative, index);
    }
}

impl F64 {
    /// Appends the number in decimal.
    pub fn push_text(self, s: &mut String)
        ensures
            final(s)@ == old(s)@ + self.text(),
    {
        let (negative, index) = self.split();
        push_number(s, 53, TOP64, 1074, negative, index);
    }
}

} // verus!
