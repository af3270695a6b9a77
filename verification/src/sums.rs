//! Sums of real numbers.
use vstd::prelude::*;

verus! {

/// The sum of the first `n` numbers of a row.
pub open spec fn sum_of(f: spec_fn(int) -> real, n: nat) -> real
    decreases n,
{
    if n == 0 {
        0 as real
    } else {
        sum_of(f, (n - 1) as nat) + f(n - 1)
    }
}

/// Equal rows have equal sums.
pub proof fn lemma_same(f: spec_fn(int) -> real, g: spec_fn(int) -> real, n: nat)
    requires
        forall|i: int| 0 <= i < n ==> #[trigger] f(i) == g(i),
    ensures
        sum_of(f, n) == sum_of(g, n),
    decreases n,
{
    if n > 0 {
        lemma_same(f, g, (n - 1) as nat);
        assert(f(n - 1) == g(n - 1));
    }
}

/// The sum of sums.
pub proof fn lemma_plus(
    f: spec_fn(int) -> real,
    g: spec_fn(int) -> real,
    h: spec_fn(int) -> real,
    n: nat,
)
    requires
        forall|i: int| 0 <= i < n ==> #[trigger] h(i) == f(i) + g(i),
    ensures
        sum_of(h, n) == sum_of(f, n) + sum_of(g, n),
    decreases n,
{
    if n > 0 {
        lemma_plus(f, g, h, (n - 1) as nat);
        assert(h(n - 1) == f(n - 1) + g(n - 1));
    }
}

/// A multiple of a sum.
pub proof fn lemma_scale(f: spec_fn(int) -> real, a: real, h: spec_fn(int) -> real, n: nat)
    requires
        forall|i: int| 0 <= i < n ==> #[trigger] h(i) == a * f(i),
    ensures
        sum_of(h, n) == a * sum_of(f, n),
    decreases n,
{
    if n > 0 {
        lemma_scale(f, a, h, (n - 1) as nat);
        assert(h(n - 1) == a * f(n - 1));
        let s = sum_of(f, (n - 1) as nat);
        let x = f(n - 1);
        assert(a * (s + x) == a * s + a * x) by (nonlinear_arith);
    } else {
        assert(a * (0 as real) == 0 as real) by (nonlinear_arith);
    }
}

/// A row of zeros.
pub proof fn lemma_zero(f: spec_fn(int) -> real, n: nat)
    requires
        forall|i: int| 0 <= i < n ==> #[trigger] f(i) == 0 as real,
    ensures
        sum_of(f, n) == 0 as real,
    decreases n,
{
    if n > 0 {
        lemma_zero(f, (n - 1) as nat);
        assert(f(n - 1) == 0 as real);
    }
}

/// Summing by rows is summing by columns.
pub proof fn lemma_swap(f: spec_fn(int, int) -> real, n: nat, m: nat)
    ensures
        sum_of(|i: int| sum_of(|j: int| f(i, j), m), n) == sum_of(
            |j: int| sum_of(|i: int| f(i, j), n),
            m,
        ),
    decreases n,
{
    let rows = |i: int| sum_of(|j: int| f(i, j), m);
    let cols = |j: int| sum_of(|i: int| f(i, j), n);
    if n == 0 {
        lemma_zero(cols, m);
    } else {
        let k = (n - 1) as nat;
        lemma_swap(f, k, m);
        let before = |j: int| sum_of(|i: int| f(i, j), k);
        let last = |j: int| f(n - 1, j);
        assert forall|j: int| 0 <= j < m implies #[trigger] cols(j) == before(j) + last(j) by {
            let column = |i: int| f(i, j);
            assert(cols(j) == sum_of(column, n));
            assert(before(j) == sum_of(column, k));
        }
        lemma_plus(before, last, cols, m);
        assert(rows(n - 1) == sum_of(last, m));
    }
}

/// A row in two parts.
pub proof fn lemma_parts(f: spec_fn(int) -> real, g: spec_fn(int) -> real, n: nat, m: nat)
    requires
        forall|j: int| 0 <= j < m ==> #[trigger] g(j) == f(n + j),
    ensures
        sum_of(f, n + m) == sum_of(f, n) + sum_of(g, m),
    decreases m,
{
    if m > 0 {
        lemma_parts(f, g, n, (m - 1) as nat);
        assert(g(m - 1) == f(n + (m - 1)));
        assert((n + m - 1) as nat == n + (m - 1) as nat);
    }
}

/// A row in blocks.
pub proof fn lemma_blocks(f: spec_fn(int) -> real, n: nat, m: nat)
    ensures
        sum_of(f, n * m) == sum_of(|g: int| sum_of(|j: int| f(g * m + j), m), n),
    decreases n,
{
    let blocks = |g: int| sum_of(|j: int| f(g * m + j), m);
    if n == 0 {
        assert(0 * m == 0) by (nonlinear_arith);
    } else {
        let k = (n - 1) as nat;
        lemma_blocks(f, k, m);
        assert(n * m == k * m + m) by (nonlinear_arith)
            requires
                n == k + 1,
        ;
        let last = |j: int| f((n - 1) * m + j);
        assert forall|j: int| 0 <= j < m implies #[trigger] last(j) == f(k * m + j) by {}
        lemma_parts(f, last, k * m, m);
        assert(blocks(n - 1) == sum_of(last, m));
    }
}

/// A row from behind.
pub proof fn lemma_reversed(f: spec_fn(int) -> real, g: spec_fn(int) -> real, n: nat)
    requires
        forall|i: int| 0 <= i < n ==> #[trigger] g(i) == f(n - 1 - i),
    ensures
        sum_of(f, n) == sum_of(g, n),
    decreases n,
{
    if n > 0 {
        let k = (n - 1) as nat;
        let tail = |i: int| f(i + 1);
        assert forall|i: int| 0 <= i < k implies #[trigger] g(i) == tail(k - 1 - i) by {
            assert(g(i) == f(n - 1 - i));
        }
        lemma_reversed(tail, g, k);
        assert forall|j: int| 0 <= j < k implies #[trigger] tail(j) == f(1 + j) by {}
        lemma_parts(f, tail, 1, k);
        assert(sum_of(f, 1) == sum_of(f, 0) + f(0));
        assert(g(n - 1) == f(0));
        assert(1 + k == n);
    }
}

} // verus!
