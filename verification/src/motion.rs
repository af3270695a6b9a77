//! How ink moves in one step of [`crate::descent::Momentum`]: every coordinate by itself,
//! all by one factor, each against its own velocity.
use vstd::prelude::*;

use crate::descent::{
    at_rest, coordinate_total, coordinates_before, pushed, step_scale,
    stepped_ink, MomentumView,
};
use crate::float::F64;
use crate::ink::StrokeView;
use crate::numerics::GeoMath;
use crate::order::{
    lemma_difference_moves, lemma_nothing_over, lemma_nothing_times, lemma_product_sign,
    lemma_quotient_sign, lemma_sum_moves,
};
use crate::preprocess::all_placed;

verus! {

/// The coordinates of a stroke, sample by sample, across before up.
pub open spec fn stroke_coordinates(s: StrokeView) -> Seq<F64> {
    Seq::new(
        2 * s.x.len(),
        |q: int|
            if q % 2 == 0 {
                s.x[q / 2]
            } else {
                s.y[q / 2]
            },
    )
}

/// The coordinates of an ink, stroke by stroke.
pub open spec fn coordinates(strokes: Seq<StrokeView>) -> Seq<F64>
    decreases strokes.len(),
{
    if strokes.len() == 0 {
        Seq::empty()
    } else {
        coordinates(strokes.drop_last()) + stroke_coordinates(strokes.last())
    }
}

proof fn lemma_before_same(a: Seq<StrokeView>, b: Seq<StrokeView>, k: int)
    requires
        0 <= k <= a.len(),
        k <= b.len(),
        forall|i: int| 0 <= i < k ==> (#[trigger] a[i]).x.len() == b[i].x.len(),
    ensures
        coordinates_before(a, k) == coordinates_before(b, k),
    decreases k,
{
    if k > 0 {
        lemma_before_same(a, b, k - 1);
        assert(a[k - 1].x.len() == b[k - 1].x.len());
    }
}

/// An ink has as many coordinates as a velocity for it.
pub proof fn lemma_coordinates_counted(strokes: Seq<StrokeView>)
    ensures
        coordinates(strokes).len() == coordinate_total(strokes),
    decreases strokes.len(),
{
    if strokes.len() > 0 {
        let rest = strokes.drop_last();
        lemma_coordinates_counted(rest);
        lemma_before_same(rest, strokes, rest.len() as int);
    }
}

/// Coordinate `i` of stroke `k` stands behind all coordinates of the strokes before.
proof fn lemma_coordinate_at(strokes: Seq<StrokeView>, k: int, q: int)
    requires
        0 <= k < strokes.len(),
        0 <= q < 2 * strokes[k].x.len(),
    ensures
        coordinates_before(strokes, k) + q < coordinates(strokes).len(),
        coordinates(strokes)[coordinates_before(strokes, k) + q] == stroke_coordinates(
            strokes[k],
        )[q],
    decreases strokes.len(),
{
    let rest = strokes.drop_last();
    lemma_coordinates_counted(rest);
    lemma_before_same(rest, strokes, rest.len() as int);
    if k < rest.len() {
        lemma_coordinate_at(rest, k, q);
        lemma_before_same(rest, strokes, k);
    }
}

/// Every slot is some coordinate of some stroke.
proof fn lemma_slot_of(strokes: Seq<StrokeView>, slot: int) -> (r: (int, int))
    requires
        0 <= slot < coordinates(strokes).len(),
    ensures
        0 <= r.0 < strokes.len(),
        0 <= r.1 < 2 * strokes[r.0].x.len(),
        slot == coordinates_before(strokes, r.0) + r.1,
    decreases strokes.len(),
{
    let rest = strokes.drop_last();
    lemma_coordinates_counted(rest);
    lemma_before_same(rest, strokes, rest.len() as int);
    if slot < coordinates(rest).len() {
        let r = lemma_slot_of(rest, slot);
        lemma_before_same(rest, strokes, r.0);
        r
    } else {
        (rest.len() as int, slot - coordinates(rest).len())
    }
}

/// How far a step carries a coordinate of this velocity: the velocity by one factor, which
/// is the same for all coordinates of all strokes.
pub open spec fn stride(
    m: GeoMath,
    after: MomentumView,
    step_size: F64,
    velocity: F64,
) -> F64 {
    let bias = (F64 { bits: 0x3ff0_0000_0000_0000 }).difference(after.decay);
    step_scale(m, after.velocity, bias, step_size).product(velocity).quotient(bias)
}

/// A step takes from every coordinate of every stroke what one factor makes of its own
/// velocity. It leaves times, pens and the number of samples as they are.
pub proof fn lemma_every_coordinate_moves(
    m: GeoMath,
    after: MomentumView,
    strokes: Seq<StrokeView>,
    step_size: F64,
)
    requires
        all_placed(strokes),
    ensures
        ({
            let next = stepped_ink(m, after, strokes, step_size);
            &&& next.len() == strokes.len()
            &&& coordinates(next).len() == coordinates(strokes).len()
            &&& forall|slot: int|
                0 <= slot < coordinates(strokes).len() ==> #[trigger] coordinates(next)[slot]
                    == coordinates(strokes)[slot].difference(
                    stride(m, after, step_size, after.velocity[slot]),
                )
            &&& forall|k: int|
                0 <= k < strokes.len() ==> {
                    &&& (#[trigger] next[k]).x.len() == strokes[k].x.len()
                    &&& next[k].y.len() == strokes[k].y.len()
                    &&& next[k].t == strokes[k].t
                    &&& next[k].pen_up == strokes[k].pen_up
                }
        }),
{
    let next = stepped_ink(m, after, strokes, step_size);
    let bias = (F64 { bits: 0x3ff0_0000_0000_0000 }).difference(after.decay);
    let scale = step_scale(m, after.velocity, bias, step_size);
    lemma_coordinates_counted(strokes);
    lemma_coordinates_counted(next);
    lemma_before_same(strokes, next, strokes.len() as int);
    assert forall|slot: int| 0 <= slot < coordinates(strokes).len() implies #[trigger] coordinates(
        next,
    )[slot] == coordinates(strokes)[slot].difference(
        stride(m, after, step_size, after.velocity[slot]),
    ) by {
        let (k, q) = lemma_slot_of(strokes, slot);
        assert(strokes[k].placed());
        let (s, n) = (strokes[k], next[k]);
        lemma_before_same(strokes, next, k);
        lemma_coordinate_at(strokes, k, q);
        lemma_coordinate_at(next, k, q);
        let i = q / 2;
        if q % 2 == 0 {
            assert(q == 2 * i);
            assert(n.x[i] == s.x[i].difference(
                scale.product(after.velocity[coordinates_before(strokes, k) + 2 * i]).quotient(
                    bias,
                ),
            ));
        } else {
            assert(q == 2 * i + 1);
            assert(n.y[i] == s.y[i].difference(
                scale.product(
                    after.velocity[coordinates_before(strokes, k) + 2 * i + 1],
                ).quotient(bias),
            ));
        }
    }
}

/// A step forward moves every coordinate against its own velocity, in whichever stroke it
/// is: with a velocity above zero it does not rise, with one below zero it does not fall,
/// and with none it stays.
pub proof fn lemma_against_velocity(
    m: GeoMath,
    after: MomentumView,
    strokes: Seq<StrokeView>,
    step_size: F64,
    slot: int,
)
    requires
        all_placed(strokes),
        0 <= slot < coordinates(strokes).len(),
        coordinates(strokes)[slot].finite(),
        after.velocity[slot].finite(),
        ({
            let bias = (F64 { bits: 0x3ff0_0000_0000_0000 }).difference(after.decay);
            let scale = step_scale(m, after.velocity, bias, step_size);
            &&& bias.finite() && bias.rank() > 0
            &&& scale.finite() && scale.rank() > 0
        }),
    ensures
        ({
            let before = coordinates(strokes)[slot];
            let now = coordinates(stepped_ink(m, after, strokes, step_size))[slot];
            let velocity = after.velocity[slot];
            &&& !now.nan()
            &&& velocity.rank() >= 0 ==> now.rank() <= before.rank()
            &&& velocity.rank() <= 0 ==> now.rank() >= before.rank()
        }),
{
    let bias = (F64 { bits: 0x3ff0_0000_0000_0000 }).difference(after.decay);
    let scale = step_scale(m, after.velocity, bias, step_size);
    let velocity = after.velocity[slot];
    lemma_every_coordinate_moves(m, after, strokes, step_size);
    assert(coordinates(stepped_ink(m, after, strokes, step_size))[slot]
        == coordinates(strokes)[slot].difference(stride(m, after, step_size, velocity)));
    lemma_product_sign(scale, velocity);
    let long = scale.product(velocity);
    lemma_quotient_sign(long, bias);
    if velocity.index() == 0 {
        lemma_nothing_times(scale, velocity);
        lemma_nothing_over(long, bias);
    }
    lemma_difference_moves(coordinates(strokes)[slot], long.quotient(bias));
}

/// From rest, a coordinate's velocity has no other sign than its own gradient: so the
/// first step moves every coordinate against its gradient.
pub proof fn lemma_first_push(gradient: Seq<F64>, i: int)
    requires
        0 <= i < gradient.len(),
        gradient[i].finite(),
    ensures
        ({
            let v = pushed(at_rest(gradient.len()), gradient).velocity[i];
            &&& !v.nan()
            &&& gradient[i].rank() >= 0 ==> v.rank() >= 0
            &&& gradient[i].rank() <= 0 ==> v.rank() <= 0
        }),
{
    let beta = F64 { bits: 0x3fec_cccc_cccc_cccd };
    let one = F64 { bits: 0x3ff0_0000_0000_0000 };
    let zero = F64 { bits: 0 };
    let share = one.difference(beta);
    lemma_share();
    lemma_nothing_times(beta, zero);
    lemma_product_sign(share, gradient[i]);
    if gradient[i].index() == 0 {
        lemma_nothing_times(share, gradient[i]);
    }
    lemma_product_sign(beta, zero);
    lemma_sum_moves(beta.product(zero), share.product(gradient[i]));
}

/// A push from rest gives one part in ten to the gradient: a finite share above zero.
proof fn lemma_share()
    ensures
        ({
            let beta = F64 { bits: 0x3fec_cccc_cccc_cccd };
            let one = F64 { bits: 0x3ff0_0000_0000_0000 };
            let share = one.difference(beta);
            &&& share.finite()
            &&& !share.negative()
            &&& beta.finite()
        }),
{
    let beta = F64 { bits: 0x3fec_cccc_cccc_cccd };
    let one = F64 { bits: 0x3ff0_0000_0000_0000 };
    let b = beta.opposite();
    crate::order::lemma_sum(one, b);
    crate::float::lemma_rank_orders_values(beta, one);
    assert(b.value() == -beta.value());
    lemma_difference_moves(one, beta);
}

} // verus!
