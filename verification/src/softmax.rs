//! What log probabilities are for: each class's share of all, and shares that add up to
//! one. With numbers that round this holds nearly; where the functions are the real ones
//! it holds exactly.
use vstd::prelude::*;

use crate::ctc::{
    at_frame, extended, greater, log_prob, loss_of, minimum_frames, row_max, row_total,
};
use crate::float::{F32, F64};
use crate::lattice::{log_lattice, Lattice};
use crate::logmath::{void, LogMath};
use crate::mat::lemma_cell;
use crate::sums::{lemma_scale, sum_of};

verus! {

/// What log probabilities are computed with.
#[verifier::reject_recursive_types(T)]
pub struct Calculus<T> {
    pub none: T,
    pub low: T,
    pub plus: spec_fn(T, T) -> T,
    pub minus: spec_fn(T, T) -> T,
    pub less: spec_fn(T, T) -> bool,
    pub exp: spec_fn(T) -> T,
    pub ln: spec_fn(T) -> T,
    pub ln_1p: spec_fn(T) -> T,
}

impl<T> Calculus<T> {
    /// The greatest of a row, and of the least number.
    pub open spec fn greatest(self, row: Seq<T>) -> T
        decreases row.len(),
    {
        if row.len() == 0 {
            self.low
        } else {
            let before = self.greatest(row.drop_last());
            if (self.less)(before, row.last()) {
                row.last()
            } else {
                before
            }
        }
    }

    /// The sum of exponentials of a row, each against a number.
    pub open spec fn total(self, row: Seq<T>, against: T) -> T
        decreases row.len(),
    {
        if row.len() == 0 {
            self.none
        } else {
            (self.plus)(
                self.total(row.drop_last(), against),
                (self.exp)((self.minus)(row.last(), against)),
            )
        }
    }

    /// The log probability of a class in a row.
    pub open spec fn log_prob(self, row: Seq<T>, c: int) -> T {
        let top = self.greatest(row);
        (self.minus)((self.minus)(row[c], top), (self.ln)(self.total(row, top)))
    }

    /// The logarithm of a sum, of its parts' logarithms.
    pub open spec fn log_add(self, a: T, b: T) -> T {
        if (self.less)(b, a) {
            (self.plus)(a, (self.ln_1p)((self.exp)((self.minus)(b, a))))
        } else {
            (self.plus)(b, (self.ln_1p)((self.exp)((self.minus)(a, b))))
        }
    }

    /// How a loss changes with a logit, by the logarithms of the class's probability, of
    /// all alignments that have the class there, and of all alignments.
    pub open spec fn slope(self, class: T, having: T, total: T) -> T {
        (self.minus)((self.exp)(class), (self.exp)((self.minus)(having, total)))
    }
}

/// Computing with binary64.
pub open spec fn rounded(m: LogMath) -> Calculus<F64> {
    Calculus {
        none: F64 { bits: 0 },
        low: void(),
        plus: |a: F64, b: F64| a.sum(b),
        minus: |a: F64, b: F64| a.difference(b),
        less: |a: F64, b: F64| a.below(b),
        exp: m.exp,
        ln: m.ln,
        ln_1p: m.ln_1p,
    }
}

/// A row in binary64.
pub open spec fn wide(row: Seq<F32>) -> Seq<F64> {
    Seq::new(row.len(), |c: int| row[c].widened())
}

proof fn lemma_rounded_row(m: LogMath, row: Seq<F32>, against: F64)
    ensures
        row_max(row) == rounded(m).greatest(wide(row)),
        row_total(m, row, against) == rounded(m).total(wide(row), against),
    decreases row.len(),
{
    if row.len() > 0 {
        assert(wide(row).drop_last() =~= wide(row.drop_last()));
        lemma_rounded_row(m, row.drop_last(), against);
        assert(wide(row).last() == row.last().widened());
        let (a, b) = (row_max(row.drop_last()), row.last().widened());
        assert(greater(a, b) == (if a.below(b) {
            b
        } else {
            a
        }));
    }
}

/// The log probabilities of logits, and the sums of probabilities by their logarithms, are
/// those of the one calculus, with numbers that round.
pub proof fn lemma_rounded(m: LogMath, row: Seq<F32>, c: int, a: F64, b: F64)
    requires
        0 <= c < row.len(),
        a != void(),
        b != void(),
    ensures
        log_prob(m, row, c) == rounded(m).log_prob(wide(row), c),
        m.log_add(a, b) == rounded(m).log_add(a, b),
{
    lemma_rounded_row(m, row, row_max(row));
}

/// Computing with real numbers.
pub open spec fn real_calculus(
    low: real,
    exp: spec_fn(real) -> real,
    ln: spec_fn(real) -> real,
    ln_1p: spec_fn(real) -> real,
) -> Calculus<real> {
    Calculus {
        none: 0 as real,
        low,
        plus: |a: real, b: real| a + b,
        minus: |a: real, b: real| a - b,
        less: |a: real, b: real| a < b,
        exp,
        ln,
        ln_1p,
    }
}

/// What the exponential and the logarithms have to do with each other.
pub open spec fn are_exponential(
    exp: spec_fn(real) -> real,
    ln: spec_fn(real) -> real,
    ln_1p: spec_fn(real) -> real,
) -> bool {
    &&& forall|a: real| #[trigger] exp(a) > 0 as real
    &&& forall|a: real, b: real| #[trigger] exp(a - b) * exp(b) == exp(a)
    &&& forall|a: real, b: real| #[trigger] exp(a + b) == exp(a) * exp(b)
    &&& forall|x: real| x > 0 as real ==> exp(#[trigger] ln(x)) == x
    &&& forall|x: real| x > 0 as real ==> exp(#[trigger] ln_1p(x)) == 1 as real + x
}

/// The exponentials of a row.
pub open spec fn exponentials(exp: spec_fn(real) -> real, row: Seq<real>) -> spec_fn(int) -> real {
    |c: int| exp(row[c])
}

proof fn lemma_same_product(a: real, b: real, c: real)
    ensures
        (a * b) * c == a * (b * c),
        a * b == b * a,
        (a + b) * c == a * c + b * c,
        a * (b + c) == a * b + a * c,
{
    assert((a * b) * c == a * (b * c)) by (nonlinear_arith);
    assert(a * b == b * a) by (nonlinear_arith);
    assert((a + b) * c == a * c + b * c) by (nonlinear_arith);
    assert(a * (b + c) == a * b + a * c) by (nonlinear_arith);
}

proof fn lemma_total(
    low: real,
    exp: spec_fn(real) -> real,
    ln: spec_fn(real) -> real,
    ln_1p: spec_fn(real) -> real,
    row: Seq<real>,
    against: real,
)
    requires
        are_exponential(exp, ln, ln_1p),
    ensures
        real_calculus(low, exp, ln, ln_1p).total(row, against) * exp(against) == sum_of(
            exponentials(exp, row),
            row.len(),
        ),
        row.len() > 0 ==> real_calculus(low, exp, ln, ln_1p).total(row, against) > 0 as real,
        real_calculus(low, exp, ln, ln_1p).total(row, against) >= 0 as real,
    decreases row.len(),
{
    let w = real_calculus(low, exp, ln, ln_1p);
    if row.len() == 0 {
        assert((0 as real) * exp(against) == 0 as real) by (nonlinear_arith);
    } else {
        let rest = row.drop_last();
        lemma_total(low, exp, ln, ln_1p, rest, against);
        let part = exp(row.last() - against);
        assert(part > 0 as real);
        lemma_same_product(w.total(rest, against), part, exp(against));
        assert(part * exp(against) == exp(row.last()));
        crate::sums::lemma_same(exponentials(exp, row), exponentials(exp, rest), rest.len());
        assert(w.total(row, against) == w.total(rest, against) + part);
    }
}

/// With the real functions, a class's probability is the share of its exponential in all:
/// times the sum of all exponentials of the row it is its own.
pub proof fn lemma_probability_is_share(
    low: real,
    exp: spec_fn(real) -> real,
    ln: spec_fn(real) -> real,
    ln_1p: spec_fn(real) -> real,
    row: Seq<real>,
    c: int,
)
    requires
        are_exponential(exp, ln, ln_1p),
        0 <= c < row.len(),
    ensures
        exp(real_calculus(low, exp, ln, ln_1p).log_prob(row, c)) * sum_of(
            exponentials(exp, row),
            row.len(),
        ) == exp(row[c]),
{
    let w = real_calculus(low, exp, ln, ln_1p);
    let top = w.greatest(row);
    let total = w.total(row, top);
    lemma_total(low, exp, ln, ln_1p, row, top);
    let a = row[c] - top;
    let p = exp(a - ln(total));
    assert(w.log_prob(row, c) == a - ln(total));
    assert(p * exp(ln(total)) == exp(a));
    assert(exp(row[c] - top) * exp(top) == exp(row[c]));
    lemma_same_product(p, total, exp(top));
}

/// With the real functions, the probabilities of all classes of a row add up to one.
pub proof fn lemma_probabilities_sum_to_one(
    low: real,
    exp: spec_fn(real) -> real,
    ln: spec_fn(real) -> real,
    ln_1p: spec_fn(real) -> real,
    row: Seq<real>,
)
    requires
        are_exponential(exp, ln, ln_1p),
        row.len() > 0,
    ensures
        sum_of(
            |c: int| exp(real_calculus(low, exp, ln, ln_1p).log_prob(row, c)),
            row.len(),
        ) == 1 as real,
{
    let w = real_calculus(low, exp, ln, ln_1p);
    let p = |c: int| exp(real_calculus(low, exp, ln, ln_1p).log_prob(row, c));
    let e = exponentials(exp, row);
    let all = sum_of(e, row.len());
    let top = w.greatest(row);
    lemma_total(low, exp, ln, ln_1p, row, top);
    assert(all > 0 as real) by (nonlinear_arith)
        requires
            all == w.total(row, top) * exp(top),
            w.total(row, top) > 0 as real,
            exp(top) > 0 as real,
    ;
    assert forall|c: int| 0 <= c < row.len() implies #[trigger] e(c) == all * p(c) by {
        lemma_probability_is_share(low, exp, ln, ln_1p, row, c);
        lemma_same_product(p(c), all, all);
    }
    lemma_scale(p, all, e, row.len());
    let s = sum_of(p, row.len());
    assert(all * s == all);
    assert(s == 1 as real) by (nonlinear_arith)
        requires
            all * s == all,
            all > 0 as real,
    ;
}

/// With the real functions, two logarithms added as those of a sum are the logarithm of
/// the sum.
pub proof fn lemma_log_add_is_sum(
    low: real,
    exp: spec_fn(real) -> real,
    ln: spec_fn(real) -> real,
    ln_1p: spec_fn(real) -> real,
    a: real,
    b: real,
)
    requires
        are_exponential(exp, ln, ln_1p),
    ensures
        exp(real_calculus(low, exp, ln, ln_1p).log_add(a, b)) == exp(a) + exp(b),
{
    let (x, y) = if b < a {
        (a, b)
    } else {
        (b, a)
    };
    let part = exp(y - x);
    let more = ln_1p(part);
    assert(exp(x + more) == exp(x) * exp(more));
    assert(exp(more) == 1 as real + part);
    assert(part * exp(x) == exp(y));
    lemma_same_product(exp(x), 1 as real, part);
    lemma_same_product(part, exp(x), exp(x));
}

/// The loss of a target that can be aligned is what all its alignments count, by the
/// negative logarithm; and its gradient has at every frame and class the slope there, by
/// what the alignments with the class at the frame count.
pub proof fn lemma_loss_and_every_slope(
    m: LogMath,
    probs: Seq<F64>,
    rows: nat,
    cols: nat,
    target: Seq<usize>,
    blank: usize,
    t: int,
    k: int,
)
    requires
        minimum_frames(target) <= rows,
        0 <= t < rows,
        0 <= k < cols,
        cols <= usize::MAX,
        log_lattice(m, probs, cols as int, extended(target, blank), blank).total(rows - 1)
            != void(),
    ensures
        ({
            let z = extended(target, blank);
            let w = log_lattice(m, probs, cols as int, z, blank);
            let out = loss_of(m, probs, rows, cols, target, blank);
            &&& out.loss == w.total(rows - 1).opposite()
            &&& out.grad.len() == rows * cols
            &&& 0 <= t * cols + k < out.grad.len()
            &&& out.grad[t * cols + k] == rounded(m).slope(
                probs[t * cols + k],
                w.having(rows - 1, t, k as usize, z.len()),
                w.total(rows - 1),
            )
        }),
{
    let z = extended(target, blank);
    crate::lattice::lemma_log_domain(
        m,
        probs,
        cols as int,
        z,
        blank,
        rows - 1,
        t,
        k as usize,
        z.len(),
    );
    lemma_cell(rows, cols, t, k);
    assert(at_frame(probs, cols as int, t, k as usize) == probs[t * cols + k]);
}

/// With the real functions, such a slope is the class's probability less the share of the
/// alignments that have the class there.
pub proof fn lemma_slope_is_share(
    low: real,
    exp: spec_fn(real) -> real,
    ln: spec_fn(real) -> real,
    ln_1p: spec_fn(real) -> real,
    w: Lattice<real>,
    last: int,
    t: int,
    k: usize,
    class: real,
    having: real,
    total: real,
)
    requires
        are_exponential(exp, ln, ln_1p),
        exp(class) == (w.p)(t, k),
        exp(having) == w.having(last, t, k, w.z.len()),
        exp(total) == w.total(last),
    ensures
        real_calculus(low, exp, ln, ln_1p).slope(class, having, total) == w.slope(last, t, k),
{
    let share = exp(having - total);
    assert(share * exp(total) == exp(having));
    assert(exp(total) > 0 as real);
    assert(exp(having) / exp(total) == share) by (nonlinear_arith)
        requires
            share * exp(total) == exp(having),
            exp(total) > 0 as real,
    ;
}

} // verus!
