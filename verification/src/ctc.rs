//! CTC loss and its gradient with respect to the logits.
//!
//! Decoding asks "what did this ink say?"; this module asks the inverse, "how
//! wrong is this ink for the text that was wanted, and which way should the
//! logits move to fix it". Forward-backward over the blank-interleaved label
//! sequence, in log space throughout.
use vstd::prelude::*;

use crate::error::{invalid, text_with2, Error, ErrorView};
use crate::float::{F32, F64, TOP64};
use crate::logmath::{is_void, nothing, void, Functions, LogMath};
use crate::mat::{flatten, lemma_cell, lemma_flatten, Mat, MatView};
use crate::text::dec;

verus! {

/// The greater of two numbers; a second that is no number does not count.
pub open spec fn greater(a: F64, b: F64) -> F64 {
    if !a.nan() && !b.nan() && a.rank() < b.rank() {
        b
    } else {
        a
    }
}

/// The greatest number of a row, or negative infinity.
pub open spec fn row_max(row: Seq<F32>) -> F64
    decreases row.len(),
{
    if row.len() == 0 {
        void()
    } else {
        greater(row_max(row.drop_last()), row.last().widened())
    }
}

/// The sum of exponentials of a row, each against the greatest.
pub open spec fn row_total(m: LogMath, row: Seq<F32>, max: F64) -> F64
    decreases row.len(),
{
    if row.len() == 0 {
        F64 { bits: 0 }
    } else {
        row_total(m, row.drop_last(), max).sum(
            (m.exp)(row.last().widened().difference(max)),
        )
    }
}

/// The log probability of a class in a row.
pub open spec fn log_prob(m: LogMath, row: Seq<F32>, c: int) -> F64 {
    let max = row_max(row);
    row[c].widened().difference(max).difference((m.ln)(row_total(m, row, max)))
}

/// The log probabilities of logits, row by row.
pub open spec fn log_probs(m: LogMath, logits: MatView) -> Seq<F64> {
    flatten(logits.rows, logits.cols, |t: int, c: int| log_prob(m, logits.row(t), c))
}

/// Logits to log probabilities, row-normalized, in binary64.
pub fn log_softmax<E: Fn(F64) -> F64, L: Fn(F64) -> F64, S: Fn(F64) -> F64>(
    logits: &Mat,
    f: &Functions<E, L, S>,
) -> (out: Vec<F64>)
    requires
        f.wf(),
    ensures
        out@ == log_probs(f.math(), logits@),
{
    let ghost m = f.math();
    let rows: usize = logits.rows();
    let cols: usize = logits.cols();
    let total_cells: usize = logits.as_slice().len();
    let mut out: Vec<F64> = Vec::new();
    let mut t: usize = 0;
    assert(0 * cols == 0) by (nonlinear_arith);
    while t < rows
        invariant
            t <= rows,
            rows == logits@.rows,
            cols == logits@.cols,
            f.wf(),
            m == f.math(),
            out@.len() == t * cols,
            forall|u: int, c: int|
                #![trigger out@[u * cols + c]]
                0 <= u < t && 0 <= c < cols ==> out@[u * cols + c] == log_prob(
                    m,
                    logits@.row(u),
                    c,
                ),
        decreases rows - t,
    {
        let row: &[F32] = logits.row(t);
        let mut max: F64 = nothing();
        let mut c: usize = 0;
        assert(row@.take(0) =~= Seq::empty());
        while c < cols
            invariant
                c <= cols,
                row@.len() == cols,
                max == row_max(row@.take(c as int)),
            decreases cols - c,
        {
            assert(row@.take(c + 1).drop_last() =~= row@.take(c as int));
            let v: F64 = row[c].widen();
            if max.less(v) {
                max = v;
            }
            c += 1;
        }
        assert(row@.take(c as int) =~= row@);
        let mut total: F64 = F64 { bits: 0 };
        c = 0;
        while c < cols
            invariant
                c <= cols,
                row@.len() == cols,
                f.wf(),
                m == f.math(),
                total == row_total(m, row@.take(c as int), max),
            decreases cols - c,
        {
            assert(row@.take(c + 1).drop_last() =~= row@.take(c as int));
            total = total.plus(f.exp(row[c].widen().minus(max)));
            c += 1;
        }
        assert(row@.take(c as int) =~= row@);
        let log_total: F64 = f.ln(total);
        let ghost before = out@;
        c = 0;
        while c < cols
            invariant
                c <= cols,
                row@.len() == cols,
                row@ == logits@.row(t as int),
                max == row_max(row@),
                log_total == (m.ln)(row_total(m, row@, max)),
                before.len() == t * cols,
                out@.len() == t * cols + c,
                forall|k: int| 0 <= k < before.len() ==> out@[k] == before[k],
                forall|d: int|
                    0 <= d < c ==> #[trigger] out@[t * cols + d] == log_prob(m, row@, d),
            decreases cols - c,
        {
            out.push(row[c].widen().minus(max).minus(log_total));
            c += 1;
        }
        proof {
            assert((t + 1) * cols == t * cols + cols) by (nonlinear_arith);
            assert forall|u: int, c: int|
                #![trigger out@[u * cols + c]]
                0 <= u < t + 1 && 0 <= c < cols implies out@[u * cols + c] == log_prob(
                m,
                logits@.row(u),
                c,
            ) by {
                if u < t {
                    lemma_cell(t as nat, cols as nat, u, c);
                    assert(out@[u * cols + c] == before[u * cols + c]);
                }
            }
        }
        t += 1;
    }
    proof {
        lemma_flatten(
            out@,
            logits@.rows,
            logits@.cols,
            |t: int, c: int| log_prob(m, logits@.row(t), c),
        );
    }
    out
}

/// The result of one forward-backward pass.
#[derive(Debug, Clone)]
pub struct CtcLoss {
    /// Negative log likelihood of the target.
    pub loss: F64,
    /// Row-major: how the loss changes with each logit.
    pub grad: Vec<F64>,
    pub rows: usize,
    pub cols: usize,
}

/// A target with blanks before, between and behind its labels.
pub open spec fn extended(target: Seq<usize>, blank: usize) -> Seq<usize> {
    Seq::new(
        2 * target.len() + 1,
        |i: int|
            if i % 2 == 0 {
                blank
            } else {
                target[i / 2]
            },
    )
}

/// Blank-interleaved target.
pub fn extend(target: &[usize], blank: usize) -> (z: Vec<usize>)
    ensures
        z@ == extended(target@, blank),
{
    let mut z: Vec<usize> = Vec::new();
    z.push(blank);
    let mut i: usize = 0;
    while i < target.len()
        invariant
            i <= target@.len(),
            z@ =~= extended(target@.take(i as int), blank),
        decreases target@.len() - i,
    {
        let ghost before = z@;
        z.push(target[i]);
        z.push(blank);
        i += 1;
        proof {
            let longer = extended(target@.take(i as int), blank);
            assert forall|k: int| 0 <= k < longer.len() implies z@[k] == longer[k] by {
                if k < before.len() {
                    assert(before[k] == extended(target@.take(i - 1), blank)[k]);
                }
            }
        }
    }
    assert(target@.take(i as int) =~= target@);
    z
}

/// How many labels of a target equal the one before.
pub open spec fn repeats(target: Seq<usize>) -> nat
    decreases target.len(),
{
    if target.len() <= 1 {
        0
    } else {
        repeats(target.drop_last()) + (if target.last() == target[target.len() - 2] {
            1nat
        } else {
            0
        })
    }
}

/// Every label needs a frame of its own, and a repeated pair a blank between.
pub open spec fn minimum_frames(target: Seq<usize>) -> nat {
    target.len() + repeats(target)
}

/// What a path of one class per frame reads: without repetitions, and then
/// without blanks.
pub open spec fn collapse(path: Seq<usize>, blank: usize) -> Seq<usize>
    decreases path.len(),
{
    if path.len() == 0 {
        Seq::empty()
    } else {
        let before = collapse(path.drop_last(), blank);
        if path.last() == blank || (path.len() >= 2 && path[path.len() - 2] == path.last()) {
            before
        } else {
            before.push(path.last())
        }
    }
}

/// The positions of the blank-interleaved target that may follow one another.
pub open spec fn may_follow(z: Seq<usize>, blank: usize, from: int, to: int) -> bool {
    ||| to == from
    ||| to == from + 1
    ||| to == from + 2 && z[to] != blank && z[to] != z[from]
}

/// A log probability of a frame and a class.
pub open spec fn at_frame(probs: Seq<F64>, cols: int, t: int, c: usize) -> F64 {
    probs[t * cols + c]
}

/// The log probability of the first frames up to `t` over all ways to stand at
/// position `s` then.
pub open spec fn alpha(
    m: LogMath,
    probs: Seq<F64>,
    cols: int,
    z: Seq<usize>,
    blank: usize,
    t: int,
    s: int,
) -> F64
    decreases t,
{
    if t <= 0 {
        if s <= 1 {
            at_frame(probs, cols, 0, z[s])
        } else {
            void()
        }
    } else {
        let stay = alpha(m, probs, cols, z, blank, t - 1, s);
        let one = if s >= 1 {
            m.log_add(stay, alpha(m, probs, cols, z, blank, t - 1, s - 1))
        } else {
            stay
        };
        let two = if s >= 2 && may_follow(z, blank, s - 2, s) {
            m.log_add(one, alpha(m, probs, cols, z, blank, t - 1, s - 2))
        } else {
            one
        };
        two.sum(at_frame(probs, cols, t, z[s]))
    }
}

/// The log probability of the frames behind `t` over all ways to go on from
/// position `s` to the end, where `last` is the last frame.
pub open spec fn beta(
    m: LogMath,
    probs: Seq<F64>,
    cols: int,
    z: Seq<usize>,
    blank: usize,
    last: int,
    t: int,
    s: int,
) -> F64
    decreases last - t,
{
    if t >= last {
        if s >= z.len() - 2 {
            F64 { bits: 0 }
        } else {
            void()
        }
    } else {
        let stay = beta(m, probs, cols, z, blank, last, t + 1, s).sum(
            at_frame(probs, cols, t + 1, z[s]),
        );
        let one = if s + 1 < z.len() {
            m.log_add(
                stay,
                beta(m, probs, cols, z, blank, last, t + 1, s + 1).sum(
                    at_frame(probs, cols, t + 1, z[s + 1]),
                ),
            )
        } else {
            stay
        };
        if s + 2 < z.len() && may_follow(z, blank, s, s + 2) {
            m.log_add(
                one,
                beta(m, probs, cols, z, blank, last, t + 1, s + 2).sum(
                    at_frame(probs, cols, t + 1, z[s + 2]),
                ),
            )
        } else {
            one
        }
    }
}

/// The log probability of a target.
pub open spec fn likelihood(
    m: LogMath,
    probs: Seq<F64>,
    cols: int,
    z: Seq<usize>,
    blank: usize,
    last: int,
) -> F64 {
    let end = alpha(m, probs, cols, z, blank, last, z.len() - 1);
    if z.len() > 1 {
        m.log_add(end, alpha(m, probs, cols, z, blank, last, z.len() - 2))
    } else {
        end
    }
}

/// The log probability of all ways that have class `k` at frame `t`, over the
/// first `n` positions.
pub open spec fn occupancy(
    m: LogMath,
    probs: Seq<F64>,
    cols: int,
    z: Seq<usize>,
    blank: usize,
    last: int,
    t: int,
    k: usize,
    n: nat,
) -> F64
    decreases n,
{
    if n == 0 {
        void()
    } else {
        let before = occupancy(m, probs, cols, z, blank, last, t, k, (n - 1) as nat);
        let through = alpha(m, probs, cols, z, blank, t, n - 1).sum(
            beta(m, probs, cols, z, blank, last, t, n - 1),
        );
        if z[n - 1] == k && through != void() {
            m.log_add(before, through)
        } else {
            before
        }
    }
}

/// How the loss changes with a logit: the class's probability less the share of
/// alignments that have it at that frame.
pub open spec fn slope(
    m: LogMath,
    probs: Seq<F64>,
    cols: int,
    z: Seq<usize>,
    blank: usize,
    last: int,
    t: int,
    k: usize,
) -> F64 {
    let share = (m.exp)(
        occupancy(m, probs, cols, z, blank, last, t, k, z.len()).difference(
            likelihood(m, probs, cols, z, blank, last),
        ),
    );
    (m.exp)(at_frame(probs, cols, t, k)).difference(share)
}

/// The first label that a target may not hold, from `i` on.
pub open spec fn target_problem(target: Seq<usize>, blank: usize, cols: usize, i: int) -> Option<
    ErrorView,
>
    decreases target.len() - i,
{
    if i >= target.len() {
        None
    } else if target[i] >= cols {
        Some(
            ErrorView::Invalid(
                "target label "@ + dec(target[i] as nat) + " outside "@ + dec(cols as nat)
                    + " classes"@,
            ),
        )
    } else if target[i] == blank {
        Some(ErrorView::Invalid("target contains the CTC blank"@))
    } else {
        target_problem(target, blank, cols, i + 1)
    }
}

/// What is wrong with a target and a blank for a number of classes.
pub open spec fn input_problem(target: Seq<usize>, blank: usize, cols: usize) -> Option<
    ErrorView,
> {
    if blank >= cols {
        Some(
            ErrorView::Invalid(
                "blank index "@ + dec(blank as nat) + " outside "@ + dec(cols as nat)
                    + " classes"@,
            ),
        )
    } else {
        target_problem(target, blank, cols, 0)
    }
}

fn check_input(target: &[usize], blank: usize, cols: usize) -> (r: Result<(), Error>)
    ensures
        match (r, input_problem(target@, blank, cols)) {
            (Ok(_), None) => blank < cols && forall|i: int|
                0 <= i < target@.len() ==> (#[trigger] target@[i]) < cols && target@[i] != blank,
            (Err(e), Some(f)) => e@ == f,
            _ => false,
        },
{
    if blank >= cols {
        return Err(
            Error::Invalid(
                text_with2("blank index ", blank as u64, " outside ", cols as u64, " classes"),
            ),
        );
    }
    let mut i: usize = 0;
    while i < target.len()
        invariant
            i <= target@.len(),
            blank < cols,
            target_problem(target@, blank, cols, 0) == target_problem(
                target@,
                blank,
                cols,
                i as int,
            ),
            forall|j: int|
                0 <= j < i ==> (#[trigger] target@[j]) < cols && target@[j] != blank,
        decreases target@.len() - i,
    {
        if target[i] >= cols {
            return Err(
                Error::Invalid(
                    text_with2(
                        "target label ",
                        target[i] as u64,
                        " outside ",
                        cols as u64,
                        " classes",
                    ),
                ),
            );
        }
        if target[i] == blank {
            return Err(invalid("target contains the CTC blank"));
        }
        i += 1;
    }
    Ok(())
}

/// Whether a target has an alignment to so many frames.
pub fn is_alignable(target: &[usize], frames: usize) -> (r: bool)
    ensures
        r == (frames > 0 && minimum_frames(target@) <= frames),
{
    let mut extra: u128 = 0;
    let mut i: usize = 1;
    assert(target@.len() > 0 ==> repeats(target@.take(1)) == 0);
    assert(target@.len() == 0 ==> repeats(target@) == 0);
    while i < target.len()
        invariant
            1 <= i,
            i <= target@.len() || target@.len() == 0,
            target@.len() > 0 ==> extra == repeats(target@.take(i as int)),
            target@.len() == 0 ==> extra == 0,
            extra <= i,
        decreases target@.len() - i,
    {
        assert(target@.take(i + 1).drop_last() =~= target@.take(i as int));
        if target[i] == target[i - 1] {
            extra = extra + 1;
        }
        i += 1;
    }
    assert(target@.len() > 0 ==> target@.take(i as int) =~= target@);
    frames > 0 && (target.len() as u128) + extra <= frames as u128
}


/// What a pass needs, all of one shape.
pub open spec fn lattice_wf(probs: Seq<F64>, cols: int, z: Seq<usize>, frames: int) -> bool {
    &&& 0 < cols
    &&& 0 < frames
    &&& probs.len() == frames * cols
    &&& z.len() >= 1
    &&& forall|s: int| 0 <= s < z.len() ==> (#[trigger] z[s]) < cols
}

/// Reads a log probability.
fn frame_prob(probs: &Vec<F64>, cols: usize, t: usize, c: usize, frames: usize) -> (r: F64)
    requires
        probs@.len() == frames * cols,
        t < frames,
        c < cols,
    ensures
        r == at_frame(probs@, cols as int, t as int, c),
{
    proof {
        lemma_cell(frames as nat, cols as nat, t as int, c as int);
        assert(0 <= t * cols) by (nonlinear_arith)
            requires
                0 <= t,
                0 <= cols,
        ;
    }
    let total: usize = probs.len();
    probs[t * cols + c]
}

/// One row of the forward table out of the row before.
fn alpha_row<E: Fn(F64) -> F64, L: Fn(F64) -> F64, S: Fn(F64) -> F64>(
    f: &Functions<E, L, S>,
    probs: &Vec<F64>,
    cols: usize,
    z: &Vec<usize>,
    blank: usize,
    frames: usize,
    t: usize,
    previous: &Vec<F64>,
) -> (row: Vec<F64>)
    requires
        f.wf(),
        lattice_wf(probs@, cols as int, z@, frames as int),
        t < frames,
        t > 0 ==> previous@.len() == z@.len(),
        t > 0 ==> forall|s: int|
            0 <= s < z@.len() ==> #[trigger] previous@[s] == alpha(
                f.math(),
                probs@,
                cols as int,
                z@,
                blank,
                t - 1,
                s,
            ),
    ensures
        row@.len() == z@.len(),
        forall|s: int|
            0 <= s < z@.len() ==> #[trigger] row@[s] == alpha(
                f.math(),
                probs@,
                cols as int,
                z@,
                blank,
                t as int,
                s,
            ),
{
    let ghost m = f.math();
    let mut row: Vec<F64> = Vec::new();
    let mut s: usize = 0;
    while s < z.len()
        invariant
            s <= z@.len(),
            f.wf(),
            m == f.math(),
            lattice_wf(probs@, cols as int, z@, frames as int),
            t < frames,
            t > 0 ==> previous@.len() == z@.len(),
            t > 0 ==> forall|s: int|
                0 <= s < z@.len() ==> #[trigger] previous@[s] == alpha(
                    m,
                    probs@,
                    cols as int,
                    z@,
                    blank,
                    t - 1,
                    s,
                ),
            row@.len() == s,
            forall|k: int|
                0 <= k < s ==> #[trigger] row@[k] == alpha(
                    m,
                    probs@,
                    cols as int,
                    z@,
                    blank,
                    t as int,
                    k,
                ),
        decreases z@.len() - s,
    {
        let emission: F64 = frame_prob(probs, cols, t, z[s], frames);
        if t == 0 {
            if s <= 1 {
                row.push(emission);
            } else {
                row.push(nothing());
            }
        } else {
            let mut total: F64 = previous[s];
            if s >= 1 {
                total = f.log_add_exp(total, previous[s - 1]);
            }
            if s >= 2 && z[s] != blank && z[s] != z[s - 2] {
                total = f.log_add_exp(total, previous[s - 2]);
            }
            row.push(total.plus(emission));
        }
        s += 1;
    }
    row
}

/// One row of the backward table out of the row behind.
fn beta_row<E: Fn(F64) -> F64, L: Fn(F64) -> F64, S: Fn(F64) -> F64>(
    f: &Functions<E, L, S>,
    probs: &Vec<F64>,
    cols: usize,
    z: &Vec<usize>,
    blank: usize,
    frames: usize,
    t: usize,
    following: &Vec<F64>,
) -> (row: Vec<F64>)
    requires
        f.wf(),
        lattice_wf(probs@, cols as int, z@, frames as int),
        t < frames,
        t < frames - 1 ==> following@.len() == z@.len(),
        t < frames - 1 ==> forall|s: int|
            0 <= s < z@.len() ==> #[trigger] following@[s] == beta(
                f.math(),
                probs@,
                cols as int,
                z@,
                blank,
                frames - 1,
                t + 1,
                s,
            ),
    ensures
        row@.len() == z@.len(),
        forall|s: int|
            0 <= s < z@.len() ==> #[trigger] row@[s] == beta(
                f.math(),
                probs@,
                cols as int,
                z@,
                blank,
                frames - 1,
                t as int,
                s,
            ),
{
    let ghost m = f.math();
    let mut row: Vec<F64> = Vec::new();
    let n: usize = z.len();
    let mut s: usize = 0;
    while s < n
        invariant
            s <= n,
            n == z@.len(),
            f.wf(),
            m == f.math(),
            lattice_wf(probs@, cols as int, z@, frames as int),
            t < frames,
            t < frames - 1 ==> following@.len() == z@.len(),
            t < frames - 1 ==> forall|s: int|
                0 <= s < z@.len() ==> #[trigger] following@[s] == beta(
                    m,
                    probs@,
                    cols as int,
                    z@,
                    blank,
                    frames - 1,
                    t + 1,
                    s,
                ),
            row@.len() == s,
            forall|k: int|
                0 <= k < s ==> #[trigger] row@[k] == beta(
                    m,
                    probs@,
                    cols as int,
                    z@,
                    blank,
                    frames - 1,
                    t as int,
                    k,
                ),
        decreases n - s,
    {
        if t == frames - 1 {
            if n - s <= 2 {
                row.push(F64 { bits: 0 });
            } else {
                row.push(nothing());
            }
        } else {
            let mut total: F64 = following[s].plus(frame_prob(probs, cols, t + 1, z[s], frames));
            if n - s > 1 {
                let way: F64 = following[s + 1].plus(
                    frame_prob(probs, cols, t + 1, z[s + 1], frames),
                );
                total = f.log_add_exp(total, way);
            }
            if n - s > 2 && z[s + 2] != blank && z[s + 2] != z[s] {
                let way: F64 = following[s + 2].plus(
                    frame_prob(probs, cols, t + 1, z[s + 2], frames),
                );
                total = f.log_add_exp(total, way);
            }
            row.push(total);
        }
        s += 1;
    }
    row
}

/// The forward table.
fn forward<E: Fn(F64) -> F64, L: Fn(F64) -> F64, S: Fn(F64) -> F64>(
    f: &Functions<E, L, S>,
    probs: &Vec<F64>,
    cols: usize,
    z: &Vec<usize>,
    blank: usize,
    frames: usize,
) -> (table: Vec<Vec<F64>>)
    requires
        f.wf(),
        lattice_wf(probs@, cols as int, z@, frames as int),
    ensures
        table@.len() == frames,
        forall|t: int| 0 <= t < frames ==> (#[trigger] table@[t])@.len() == z@.len(),
        forall|t: int, s: int|
            0 <= t < frames && 0 <= s < z@.len() ==> #[trigger] table@[t]@[s] == alpha(
                f.math(),
                probs@,
                cols as int,
                z@,
                blank,
                t,
                s,
            ),
{
    let mut table: Vec<Vec<F64>> = Vec::new();
    table.push(alpha_row(f, probs, cols, z, blank, frames, 0, &Vec::new()));
    let mut t: usize = 1;
    while t < frames
        invariant
            1 <= t <= frames,
            f.wf(),
            lattice_wf(probs@, cols as int, z@, frames as int),
            table@.len() == t,
            forall|u: int| 0 <= u < t ==> (#[trigger] table@[u])@.len() == z@.len(),
            forall|u: int, s: int|
                0 <= u < t && 0 <= s < z@.len() ==> #[trigger] table@[u]@[s] == alpha(
                    f.math(),
                    probs@,
                    cols as int,
                    z@,
                    blank,
                    u,
                    s,
                ),
        decreases frames - t,
    {
        let row: Vec<F64> = alpha_row(f, probs, cols, z, blank, frames, t, &table[t - 1]);
        table.push(row);
        t += 1;
    }
    table
}

/// The backward table, the last frame first.
fn backward<E: Fn(F64) -> F64, L: Fn(F64) -> F64, S: Fn(F64) -> F64>(
    f: &Functions<E, L, S>,
    probs: &Vec<F64>,
    cols: usize,
    z: &Vec<usize>,
    blank: usize,
    frames: usize,
) -> (table: Vec<Vec<F64>>)
    requires
        f.wf(),
        lattice_wf(probs@, cols as int, z@, frames as int),
    ensures
        table@.len() == frames,
        forall|k: int| 0 <= k < frames ==> (#[trigger] table@[k])@.len() == z@.len(),
        forall|k: int, s: int|
            0 <= k < frames && 0 <= s < z@.len() ==> #[trigger] table@[k]@[s] == beta(
                f.math(),
                probs@,
                cols as int,
                z@,
                blank,
                frames - 1,
                frames - 1 - k,
                s,
            ),
{
    let mut table: Vec<Vec<F64>> = Vec::new();
    table.push(beta_row(f, probs, cols, z, blank, frames, frames - 1, &Vec::new()));
    let mut k: usize = 1;
    while k < frames
        invariant
            1 <= k <= frames,
            f.wf(),
            lattice_wf(probs@, cols as int, z@, frames as int),
            table@.len() == k,
            forall|u: int| 0 <= u < k ==> (#[trigger] table@[u])@.len() == z@.len(),
            forall|u: int, s: int|
                0 <= u < k && 0 <= s < z@.len() ==> #[trigger] table@[u]@[s] == beta(
                    f.math(),
                    probs@,
                    cols as int,
                    z@,
                    blank,
                    frames - 1,
                    frames - 1 - u,
                    s,
                ),
        decreases frames - k,
    {
        let row: Vec<F64> = beta_row(
            f,
            probs,
            cols,
            z,
            blank,
            frames,
            frames - 1 - k,
            &table[k - 1],
        );
        table.push(row);
        k += 1;
    }
    table
}

/// The occupancy of every class at one frame.
fn occupancy_row<E: Fn(F64) -> F64, L: Fn(F64) -> F64, S: Fn(F64) -> F64>(
    f: &Functions<E, L, S>,
    z: &Vec<usize>,
    cols: usize,
    alphas: &Vec<F64>,
    betas: &Vec<F64>,
    Ghost(probs): Ghost<Seq<F64>>,
    Ghost(blank): Ghost<usize>,
    Ghost(last): Ghost<int>,
    Ghost(t): Ghost<int>,
) -> (row: Vec<F64>)
    requires
        f.wf(),
        forall|s: int| 0 <= s < z@.len() ==> (#[trigger] z@[s]) < cols,
        alphas@.len() == z@.len(),
        betas@.len() == z@.len(),
        forall|s: int|
            0 <= s < z@.len() ==> #[trigger] alphas@[s] == alpha(
                f.math(),
                probs,
                cols as int,
                z@,
                blank,
                t,
                s,
            ),
        forall|s: int|
            0 <= s < z@.len() ==> #[trigger] betas@[s] == beta(
                f.math(),
                probs,
                cols as int,
                z@,
                blank,
                last,
                t,
                s,
            ),
    ensures
        row@.len() == cols,
        forall|k: usize|
            k < cols ==> #[trigger] row@[k as int] == occupancy(
                f.math(),
                probs,
                cols as int,
                z@,
                blank,
                last,
                t,
                k,
                z@.len(),
            ),
{
    let ghost m = f.math();
    let mut row: Vec<F64> = Vec::new();
    let mut k: usize = 0;
    while k < cols
        invariant
            k <= cols,
            row@.len() == k,
            forall|i: int| 0 <= i < k ==> row@[i] == void(),
        decreases cols - k,
    {
        row.push(nothing());
        k += 1;
    }
    let mut s: usize = 0;
    while s < z.len()
        invariant
            s <= z@.len(),
            f.wf(),
            m == f.math(),
            forall|s: int| 0 <= s < z@.len() ==> (#[trigger] z@[s]) < cols,
            alphas@.len() == z@.len(),
            betas@.len() == z@.len(),
            forall|s: int|
                0 <= s < z@.len() ==> #[trigger] alphas@[s] == alpha(
                    m,
                    probs,
                    cols as int,
                    z@,
                    blank,
                    t,
                    s,
                ),
            forall|s: int|
                0 <= s < z@.len() ==> #[trigger] betas@[s] == beta(
                    m,
                    probs,
                    cols as int,
                    z@,
                    blank,
                    last,
                    t,
                    s,
                ),
            row@.len() == cols,
            forall|k: usize|
                k < cols ==> #[trigger] row@[k as int] == occupancy(
                    m,
                    probs,
                    cols as int,
                    z@,
                    blank,
                    last,
                    t,
                    k,
                    s as nat,
                ),
        decreases z@.len() - s,
    {
        let through: F64 = alphas[s].plus(betas[s]);
        let ghost before = row@;
        let k: usize = z[s];
        if !is_void(through) {
            let joined: F64 = f.log_add_exp(row[k], through);
            row.set(k, joined);
        }
        proof {
            assert forall|j: usize| j < cols implies #[trigger] row@[j as int] == occupancy(
                m,
                probs,
                cols as int,
                z@,
                blank,
                last,
                t,
                j,
                (s + 1) as nat,
            ) by {
                assert(before[j as int] == occupancy(
                    m,
                    probs,
                    cols as int,
                    z@,
                    blank,
                    last,
                    t,
                    j,
                    s as nat,
                ));
            }
        }
        s += 1;
    }
    row
}

/// [`CtcLoss`] by its contents.
#[verifier::ext_equal]
pub struct LossView {
    pub loss: F64,
    pub grad: Seq<F64>,
    pub rows: nat,
    pub cols: nat,
}

impl View for CtcLoss {
    type V = LossView;

    open spec fn view(&self) -> LossView {
        LossView {
            loss: self.loss,
            grad: self.grad@,
            rows: self.rows as nat,
            cols: self.cols as nat,
        }
    }
}

/// The loss of a target, and how it changes with each logit. A target that cannot be
/// aligned has an infinite loss, which changes with none.
pub open spec fn loss_of(
    m: LogMath,
    probs: Seq<F64>,
    rows: nat,
    cols: nat,
    target: Seq<usize>,
    blank: usize,
) -> LossView {
    let z = extended(target, blank);
    let total = likelihood(m, probs, cols as int, z, blank, rows - 1);
    if rows == 0 || minimum_frames(target) > rows || total == void() {
        LossView {
            loss: F64 { bits: TOP64 },
            grad: Seq::new(rows * cols, |i: int| F64 { bits: 0 }),
            rows,
            cols,
        }
    } else {
        LossView {
            loss: total.opposite(),
            grad: flatten(
                rows,
                cols,
                |t: int, k: int| slope(m, probs, cols as int, z, blank, rows - 1, t, k as usize),
            ),
            rows,
            cols,
        }
    }
}

/// The loss of a target for logits, or what is wrong with the target.
pub open spec fn loss_result(
    m: LogMath,
    logits: MatView,
    target: Seq<usize>,
    blank: usize,
) -> Result<
    LossView,
    ErrorView,
> {
    match input_problem(target, blank, logits.cols as usize) {
        Some(g) => Err(g),
        None => Ok(loss_of(m, log_probs(m, logits), logits.rows, logits.cols, target, blank)),
    }
}

fn no_gradient(rows: usize, cols: usize, cells: usize) -> (r: CtcLoss)
    requires
        cells == rows * cols,
    ensures
        r.rows == rows,
        r.cols == cols,
        r.loss == (F64 { bits: TOP64 }),
        r.grad@.len() == rows * cols,
        forall|i: int| 0 <= i < r.grad@.len() ==> r.grad@[i] == (F64 { bits: 0 }),
{
    let mut grad: Vec<F64> = Vec::new();
    let mut i: usize = 0;
    while i < cells
        invariant
            i <= cells,
            grad@.len() == i,
            forall|j: int| 0 <= j < i ==> grad@[j] == (F64 { bits: 0 }),
        decreases cells - i,
    {
        grad.push(F64 { bits: 0 });
        i += 1;
    }
    CtcLoss { loss: F64 { bits: TOP64 }, grad, rows, cols }
}

/// The gradient, row by row.
fn gradient<E: Fn(F64) -> F64, L: Fn(F64) -> F64, S: Fn(F64) -> F64>(
    f: &Functions<E, L, S>,
    probs: &Vec<F64>,
    cols: usize,
    z: &Vec<usize>,
    blank: usize,
    frames: usize,
    alphas: &Vec<Vec<F64>>,
    total: F64,
) -> (grad: Vec<F64>)
    requires
        f.wf(),
        lattice_wf(probs@, cols as int, z@, frames as int),
        alphas@.len() == frames,
        forall|t: int| 0 <= t < frames ==> (#[trigger] alphas@[t])@.len() == z@.len(),
        forall|t: int, s: int|
            0 <= t < frames && 0 <= s < z@.len() ==> #[trigger] alphas@[t]@[s] == alpha(
                f.math(),
                probs@,
                cols as int,
                z@,
                blank,
                t,
                s,
            ),
        total == likelihood(f.math(), probs@, cols as int, z@, blank, frames - 1),
    ensures
        grad@.len() == frames * cols,
        forall|t: int, k: usize|
            #![trigger grad@[t * cols + k]]
            0 <= t < frames && k < cols ==> grad@[t * cols + k] == slope(
                f.math(),
                probs@,
                cols as int,
                z@,
                blank,
                frames - 1,
                t,
                k,
            ),
{
    let ghost m = f.math();
    let betas: Vec<Vec<F64>> = backward(f, probs, cols, z, blank, frames);
    let mut grad: Vec<F64> = Vec::new();
    let mut t: usize = 0;
    assert(0 * cols == 0) by (nonlinear_arith);
    while t < frames
        invariant
            t <= frames,
            f.wf(),
            m == f.math(),
            lattice_wf(probs@, cols as int, z@, frames as int),
            alphas@.len() == frames,
            betas@.len() == frames,
            forall|t: int| 0 <= t < frames ==> (#[trigger] alphas@[t])@.len() == z@.len(),
            forall|t: int, s: int|
                0 <= t < frames && 0 <= s < z@.len() ==> #[trigger] alphas@[t]@[s] == alpha(
                    m,
                    probs@,
                    cols as int,
                    z@,
                    blank,
                    t,
                    s,
                ),
            forall|k: int| 0 <= k < frames ==> (#[trigger] betas@[k])@.len() == z@.len(),
            forall|k: int, s: int|
                0 <= k < frames && 0 <= s < z@.len() ==> #[trigger] betas@[k]@[s] == beta(
                    m,
                    probs@,
                    cols as int,
                    z@,
                    blank,
                    frames - 1,
                    frames - 1 - k,
                    s,
                ),
            total == likelihood(m, probs@, cols as int, z@, blank, frames - 1),
            grad@.len() == t * cols,
            forall|u: int, k: usize|
                #![trigger grad@[u * cols + k]]
                0 <= u < t && k < cols ==> grad@[u * cols + k] == slope(
                    m,
                    probs@,
                    cols as int,
                    z@,
                    blank,
                    frames - 1,
                    u,
                    k,
                ),
        decreases frames - t,
    {
        let back: usize = frames - 1 - t;
        assert(frames - 1 - back == t);
        let shares: Vec<F64> = occupancy_row(
            f,
            z,
            cols,
            &alphas[t],
            &betas[back],
            Ghost(probs@),
            Ghost(blank),
            Ghost(frames - 1),
            Ghost(t as int),
        );
        let ghost before = grad@;
        let mut k: usize = 0;
        while k < cols
            invariant
                k <= cols,
                t < frames,
                f.wf(),
                m == f.math(),
                lattice_wf(probs@, cols as int, z@, frames as int),
                total == likelihood(m, probs@, cols as int, z@, blank, frames - 1),
                shares@.len() == cols,
                forall|j: usize|
                    j < cols ==> #[trigger] shares@[j as int] == occupancy(
                        m,
                        probs@,
                        cols as int,
                        z@,
                        blank,
                        frames - 1,
                        t as int,
                        j,
                        z@.len(),
                    ),
                before.len() == t * cols,
                grad@.len() == t * cols + k,
                forall|i: int| 0 <= i < before.len() ==> grad@[i] == before[i],
                forall|j: usize|
                    j < k ==> #[trigger] grad@[t * cols + j] == slope(
                        m,
                        probs@,
                        cols as int,
                        z@,
                        blank,
                        frames - 1,
                        t as int,
                        j,
                    ),
            decreases cols - k,
        {
            let share: F64 = f.exp(shares[k].minus(total));
            let p: F64 = f.exp(frame_prob(probs, cols, t, k, frames));
            grad.push(p.minus(share));
            k += 1;
        }
        proof {
            assert((t + 1) * cols == t * cols + cols) by (nonlinear_arith);
            assert forall|u: int, k: usize|
                #![trigger grad@[u * cols + k]]
                0 <= u < t + 1 && k < cols implies grad@[u * cols + k] == slope(
                m,
                probs@,
                cols as int,
                z@,
                blank,
                frames - 1,
                u,
                k,
            ) by {
                if u < t {
                    lemma_cell(t as nat, cols as nat, u, k as int);
                    assert(grad@[u * cols + k] == before[u * cols + k]);
                }
            }
        }
        t += 1;
    }
    grad
}

/// CTC negative log likelihood of `target` (network output indices) and its
/// gradient with respect to `logits`.
///
/// Returns an infinite loss with a zero gradient when the target cannot be
/// aligned at all, which is a legitimate state for an optimizer to pass through
/// rather than an error.
pub fn loss_and_grad<E: Fn(F64) -> F64, L: Fn(F64) -> F64, S: Fn(F64) -> F64>(
    logits: &Mat,
    target: &[usize],
    blank: usize,
    f: &Functions<E, L, S>,
) -> (r: Result<CtcLoss, Error>)
    requires
        f.wf(),
    ensures
        match (r, loss_result(f.math(), logits@, target@, blank)) {
            (Ok(loss), Ok(wanted)) => loss@ == wanted,
            (Err(e), Err(g)) => e@ == g,
            _ => false,
        },
{
    let rows: usize = logits.rows();
    let cols: usize = logits.cols();
    check_input(target, blank, cols)?;
    let cells: usize = logits.as_slice().len();
    let probs: Vec<F64> = log_softmax(logits, f);
    if !is_alignable(target, rows) {
        let r: CtcLoss = no_gradient(rows, cols, cells);
        assert(r@ =~= loss_of(f.math(), probs@, rows as nat, cols as nat, target@, blank));
        return Ok(r);
    }
    let z: Vec<usize> = extend(target, blank);
    assert forall|s: int| 0 <= s < z@.len() implies (#[trigger] z@[s]) < cols by {
        if s % 2 == 1 {
            assert(z@[s] == target@[s / 2]);
        }
    }
    let alphas: Vec<Vec<F64>> = forward(f, &probs, cols, &z, blank, rows);
    let n: usize = z.len();
    let end: F64 = alphas[rows - 1][n - 1];
    let total: F64 = if n > 1 {
        f.log_add_exp(end, alphas[rows - 1][n - 2])
    } else {
        end
    };
    assert(total == likelihood(f.math(), probs@, cols as int, z@, blank, rows - 1));
    if is_void(total) {
        let r: CtcLoss = no_gradient(rows, cols, cells);
        assert(r@ =~= loss_of(f.math(), probs@, rows as nat, cols as nat, target@, blank));
        return Ok(r);
    }
    let grad: Vec<F64> = gradient(f, &probs, cols, &z, blank, rows, &alphas, total);
    let r: CtcLoss = CtcLoss { loss: total.negated(), grad, rows, cols };
    proof {
        lemma_flatten(
            r.grad@,
            rows as nat,
            cols as nat,
            |t: int, k: int|
                slope(
                    f.math(),
                    probs@,
                    cols as int,
                    z@,
                    blank,
                    rows - 1,
                    t,
                    k as usize,
                ),
        );
        assert(r@ =~= loss_of(f.math(), probs@, rows as nat, cols as nat, target@, blank));
    }
    Ok(r)
}

/// The target of a path needs no more frames than the path has, and one less if
/// the path ends in a blank behind a label.
proof fn lemma_path_bound(path: Seq<usize>, blank: usize)
    ensures
        minimum_frames(collapse(path, blank)) <= path.len(),
        path.len() > 0 && path.last() == blank && collapse(path, blank).len() > 0
            ==> minimum_frames(collapse(path, blank)) + 1 <= path.len(),
        path.len() > 0 && path.last() != blank ==> collapse(path, blank).len() > 0 && collapse(
            path,
            blank,
        ).last() == path.last(),
    decreases path.len(),
{
    if path.len() > 0 {
        let rest = path.drop_last();
        lemma_path_bound(rest, blank);
        let c = collapse(rest, blank);
        let d = collapse(path, blank);
        if d != c {
            assert(d.drop_last() =~= c);
            if c.len() > 0 {
                assert(d[d.len() - 2] == c.last());
            }
        }
    }
}

/// A shortest path that reads a target.
pub open spec fn shortest_path(target: Seq<usize>, blank: usize) -> Seq<usize>
    decreases target.len(),
{
    if target.len() == 0 {
        Seq::empty()
    } else {
        let before = shortest_path(target.drop_last(), blank);
        if target.len() >= 2 && target.last() == target[target.len() - 2] {
            before.push(blank).push(target.last())
        } else {
            before.push(target.last())
        }
    }
}

proof fn lemma_shortest_path(target: Seq<usize>, blank: usize)
    requires
        !target.contains(blank),
    ensures
        shortest_path(target, blank).len() == minimum_frames(target),
        collapse(shortest_path(target, blank), blank) == target,
        target.len() > 0 ==> shortest_path(target, blank).last() == target.last(),
    decreases target.len(),
{
    if target.len() > 0 {
        let rest = target.drop_last();
        assert(!rest.contains(blank)) by {
            if rest.contains(blank) {
                let i = rest.index_of(blank);
                assert(target[i] == blank);
            }
        }
        lemma_shortest_path(rest, blank);
        let before = shortest_path(rest, blank);
        let path = shortest_path(target, blank);
        assert(target[target.len() - 1] != blank);
        assert(rest.push(target.last()) =~= target);
        if target.len() >= 2 && target.last() == target[target.len() - 2] {
            let middle = before.push(blank);
            assert(path.drop_last() =~= middle);
            assert(middle.drop_last() =~= before);
            assert(collapse(middle, blank) == rest);
            assert(path[path.len() - 2] == blank);
        } else {
            assert(path.drop_last() =~= before);
            if before.len() > 0 {
                assert(path[path.len() - 2] == before.last());
                if rest.len() > 0 {
                    assert(rest.last() == target[target.len() - 2]);
                } else {
                    assert(before =~= Seq::empty());
                }
            }
        }
    } else {
        assert(collapse(shortest_path(target, blank), blank) =~= target);
    }
}

proof fn lemma_append_blanks(path: Seq<usize>, blank: usize, n: nat)
    ensures
        collapse(path + Seq::new(n, |i: int| blank), blank) == collapse(path, blank),
    decreases n,
{
    let longer = path + Seq::new(n, |i: int| blank);
    if n == 0 {
        assert(longer =~= path);
    } else {
        lemma_append_blanks(path, blank, (n - 1) as nat);
        assert(longer.drop_last() =~= path + Seq::new((n - 1) as nat, |i: int| blank));
        assert(longer.last() == blank);
    }
}

/// A path of a length reads a target if and only if the target's minimum of
/// frames is no more than that length.
pub proof fn lemma_alignable_iff(target: Seq<usize>, blank: usize, frames: nat)
    requires
        !target.contains(blank),
    ensures
        minimum_frames(target) <= frames <==> exists|path: Seq<usize>|
            path.len() == frames && #[trigger] collapse(path, blank) == target,
{
    if minimum_frames(target) <= frames {
        lemma_shortest_path(target, blank);
        let short = shortest_path(target, blank);
        let n = (frames - short.len()) as nat;
        lemma_append_blanks(short, blank, n);
        let path = short + Seq::new(n, |i: int| blank);
        assert(path.len() == frames);
        assert(collapse(path, blank) == target);
    }
    if exists|path: Seq<usize>|
        path.len() == frames && #[trigger] collapse(path, blank) == target {
        let path = choose|path: Seq<usize>|
            path.len() == frames && #[trigger] collapse(path, blank) == target;
        lemma_path_bound(path, blank);
    }
}

/// A walk through the blank-interleaved target: one position per frame, from one
/// of the first two on, by steps that may follow one another.
pub open spec fn is_walk(z: Seq<usize>, blank: usize, walk: Seq<int>) -> bool {
    &&& walk.len() > 0 ==> 0 <= walk[0] <= 1
    &&& forall|t: int|
        #![trigger walk[t]]
        0 <= t < walk.len() ==> 0 <= walk[t] < z.len() && (t > 0 ==> may_follow(
            z,
            blank,
            walk[t - 1],
            walk[t],
        ))
}

/// The classes that a walk passes.
pub open spec fn spelled(z: Seq<usize>, walk: Seq<int>) -> Seq<usize> {
    walk.map_values(|s: int| z[s])
}

/// Where a path stands in the blank-interleaved target: behind as many labels as
/// it has read, on the last of them or on the blank behind.
pub open spec fn position(path: Seq<usize>, blank: usize) -> int {
    let read = collapse(path, blank).len() as int;
    if path.last() == blank {
        2 * read
    } else {
        2 * read - 1
    }
}

/// A walk has read the labels up to its last position.
proof fn lemma_walk_reads(target: Seq<usize>, blank: usize, walk: Seq<int>)
    requires
        !target.contains(blank),
        is_walk(extended(target, blank), blank, walk),
        walk.len() > 0,
    ensures
        ({
            let path = spelled(extended(target, blank), walk);
            &&& collapse(path, blank) == target.take((walk.last() + 1) / 2)
            &&& position(path, blank) == walk.last()
            &&& (path.last() == blank) == (walk.last() % 2 == 0)
        }),
    decreases walk.len(),
{
    let z = extended(target, blank);
    let path = spelled(z, walk);
    let s = walk.last();
    assert(walk[walk.len() - 1] == s);
    assert(0 <= s < z.len());
    assert((z[s] == blank) == (s % 2 == 0)) by {
        if s % 2 == 1 {
            assert(z[s] == target[s / 2]);
            if target[s / 2] == blank {
                assert(target.contains(blank));
            }
        }
    }
    assert(path.last() == z[s]);
    if walk.len() == 1 {
        assert(path.drop_last() =~= Seq::empty());
        assert(0 <= s <= 1);
        assert(collapse(path.drop_last(), blank) =~= Seq::empty());
        if s == 0 {
            assert(collapse(path, blank) =~= target.take(0));
        } else {
            assert(z[1] == target[0]);
            assert(collapse(path, blank) =~= seq![z[1]]);
            assert(collapse(path, blank) =~= target.take(1));
        }
    } else {
        let before = walk.drop_last();
        let shorter = spelled(z, before);
        assert(is_walk(z, blank, before)) by {
            assert forall|t: int|
                #![trigger before[t]]
                0 <= t < before.len() implies 0 <= before[t] < z.len() && (t > 0 ==> may_follow(
                z,
                blank,
                before[t - 1],
                before[t],
            )) by {
                assert(walk[t] == before[t]);
                if t > 0 {
                    assert(walk[t - 1] == before[t - 1]);
                }
            }
            assert(walk[0] == before[0]);
        }
        lemma_walk_reads(target, blank, before);
        assert(path.drop_last() =~= shorter);
        let r = before.last();
        assert(walk[walk.len() - 2] == r);
        assert(path[path.len() - 2] == shorter.last());
        assert(shorter.last() == z[r]);
        assert(may_follow(z, blank, r, s));
        if s % 2 == 0 {
            // On a blank: nothing is read.
            assert((s + 1) / 2 == (r + 1) / 2);
        } else if s == r {
            assert(path[path.len() - 2] == path.last());
        } else {
            // A new label.
            assert(z[s] == target[s / 2]);
            if r == s - 1 {
                assert(z[r] == blank);
            } else {
                assert(r == s - 2);
                assert(z[r] != z[s]);
            }
            assert(collapse(path, blank) == collapse(shorter, blank).push(z[s]));
            assert(target.take((s + 1) / 2) =~= target.take((r + 1) / 2).push(z[s]));
        }
    }
}

/// Every walk that ends on the last label or the last blank spells a path that
/// reads the target.
pub proof fn lemma_walk_is_alignment(target: Seq<usize>, blank: usize, walk: Seq<int>)
    requires
        !target.contains(blank),
        is_walk(extended(target, blank), blank, walk),
        walk.len() > 0,
        walk.last() >= extended(target, blank).len() - 2,
    ensures
        collapse(spelled(extended(target, blank), walk), blank) == target,
{
    lemma_walk_reads(target, blank, walk);
    assert(walk[walk.len() - 1] == walk.last());
    assert(target.take(target.len() as int) =~= target);
}

/// A path that has read a beginning of the target has a walk.
proof fn lemma_path_walks(target: Seq<usize>, blank: usize, path: Seq<usize>) -> (walk: Seq<int>)
    requires
        !target.contains(blank),
        path.len() > 0,
        collapse(path, blank).len() <= target.len(),
        collapse(path, blank) == target.take(collapse(path, blank).len() as int),
    ensures
        is_walk(extended(target, blank), blank, walk),
        walk.len() == path.len(),
        spelled(extended(target, blank), walk) == path,
        walk.last() == position(path, blank),
    decreases path.len(),
{
    let z = extended(target, blank);
    let read = collapse(path, blank).len() as int;
    let s = position(path, blank);
    lemma_path_bound(path, blank);
    assert(0 <= s < z.len());
    assert(z[s] == path.last()) by {
        if path.last() != blank {
            assert(z[s] == target[s / 2]);
            assert(target.take(read).last() == target[read - 1]);
        }
    }
    if path.len() == 1 {
        assert(path.drop_last() =~= Seq::empty());
        let walk = seq![s];
        assert(spelled(z, walk) =~= path);
        walk
    } else {
        let rest = path.drop_last();
        let c = collapse(rest, blank);
        lemma_path_bound(rest, blank);
        assert(c =~= target.take(c.len() as int)) by {
            if collapse(path, blank) != c {
                assert(c =~= collapse(path, blank).drop_last());
            }
        }
        let before = lemma_path_walks(target, blank, rest);
        let walk = before.push(s);
        let r = before.last();
        assert(r == position(rest, blank));
        assert(rest.last() == path[path.len() - 2]);
        assert(may_follow(z, blank, r, s)) by {
            if path.last() != blank && rest.last() != blank && rest.last() != path.last() {
                assert(s == r + 2);
                assert(z[r] == rest.last()) by {
                    assert(spelled(z, before).last() == z[before.last()]);
                }
            }
        }
        assert forall|t: int|
            #![trigger walk[t]]
            0 <= t < walk.len() implies 0 <= walk[t] < z.len() && (t > 0 ==> may_follow(
            z,
            blank,
            walk[t - 1],
            walk[t],
        )) by {
            if t < before.len() {
                assert(walk[t] == before[t]);
                if t > 0 {
                    assert(walk[t - 1] == before[t - 1]);
                }
            } else {
                assert(walk[t - 1] == before.last());
                assert(before[before.len() - 1] == before.last());
            }
        }
        assert(walk[0] == before[0]);
        assert(spelled(z, walk) =~= path) by {
            assert forall|t: int| 0 <= t < path.len() implies spelled(z, walk)[t] == path[t] by {
                if t < rest.len() {
                    assert(spelled(z, before)[t] == rest[t]);
                }
            }
        }
        walk
    }
}

/// Every path that reads the target is spelled by exactly one walk that ends on
/// the last label or the last blank: the lattice counts each alignment once.
pub proof fn lemma_alignment_has_one_walk(target: Seq<usize>, blank: usize, path: Seq<usize>)
    requires
        !target.contains(blank),
        path.len() > 0,
        collapse(path, blank) == target,
    ensures
        exists|walk: Seq<int>|
            {
                &&& #[trigger] is_walk(extended(target, blank), blank, walk)
                &&& spelled(extended(target, blank), walk) == path
                &&& walk.last() >= extended(target, blank).len() - 2
            },
        forall|a: Seq<int>, b: Seq<int>|
            #![trigger is_walk(extended(target, blank), blank, a), is_walk(
                extended(target, blank),
                blank,
                b,
            )]
            is_walk(extended(target, blank), blank, a) && is_walk(
                extended(target, blank),
                blank,
                b,
            ) && spelled(extended(target, blank), a) == path && spelled(
                extended(target, blank),
                b,
            ) == path ==> a == b,
{
    let z = extended(target, blank);
    assert(target.take(target.len() as int) =~= target);
    let walk = lemma_path_walks(target, blank, path);
    assert(is_walk(z, blank, walk));
    assert forall|a: Seq<int>, b: Seq<int>|
        #![trigger is_walk(z, blank, a), is_walk(z, blank, b)]
        is_walk(z, blank, a) && is_walk(z, blank, b) && spelled(z, a) == path && spelled(z, b)
            == path implies a == b by {
        assert(a.len() == path.len() && b.len() == path.len());
        assert forall|t: int| 0 <= t < a.len() implies a[t] == b[t] by {
            let x = a.take(t + 1);
            let y = b.take(t + 1);
            lemma_walk_prefix(z, blank, a, t + 1);
            lemma_walk_prefix(z, blank, b, t + 1);
            lemma_walk_reads(target, blank, x);
            lemma_walk_reads(target, blank, y);
            assert(spelled(z, x) =~= path.take(t + 1)) by {
                assert forall|i: int| 0 <= i < t + 1 implies spelled(z, x)[i] == path[i] by {
                    assert(spelled(z, a)[i] == path[i]);
                }
            }
            assert(spelled(z, y) =~= path.take(t + 1)) by {
                assert forall|i: int| 0 <= i < t + 1 implies spelled(z, y)[i] == path[i] by {
                    assert(spelled(z, b)[i] == path[i]);
                }
            }
            assert(x.last() == a[t]);
            assert(y.last() == b[t]);
        }
        assert(a =~= b);
    }
}

proof fn lemma_walk_prefix(z: Seq<usize>, blank: usize, walk: Seq<int>, n: int)
    requires
        is_walk(z, blank, walk),
        0 < n <= walk.len(),
    ensures
        is_walk(z, blank, walk.take(n)),
{
    let w = walk.take(n);
    assert(w[0] == walk[0]);
    assert forall|t: int|
        #![trigger w[t]]
        0 <= t < w.len() implies 0 <= w[t] < z.len() && (t > 0 ==> may_follow(
        z,
        blank,
        w[t - 1],
        w[t],
    )) by {
        assert(w[t] == walk[t]);
        if t > 0 {
            assert(w[t - 1] == walk[t - 1]);
        }
    }
}

} // verus!
