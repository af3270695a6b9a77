//! What rounding leaves of the order of numbers: taking away no less than zero never
//! raises a number, and products and quotients have the sign that their parts give.
use vstd::arithmetic::power2::{lemma2_to64, lemma_pow2_pos, pow2};
use vstd::prelude::*;

use crate::division::{is_quotient, lemma_quotient_unique, nearest_ratio};
use crate::float::{
    is_product, is_sum, lemma_magnitude_increases, lemma_nearest_exists, lemma_product_unique,
    lemma_rank_orders_values, lemma_sum_unique, magnitude, nearest, F64, SIGN64, TOP64,
};

verus! {

/// Rounding keeps order.
pub proof fn lemma_rounding_keeps_order(
    precision: nat,
    top: nat,
    n: nat,
    m: nat,
    k: nat,
    i: nat,
    j: nat,
)
    requires
        precision >= 2,
        n <= m,
        nearest(precision, top, n, k, i),
        nearest(precision, top, m, k, j),
    ensures
        i <= j,
{
    if j < i {
        let f = pow2(k) as int;
        lemma_pow2_pos(k);
        let upper = (magnitude(precision, j) + magnitude(precision, j + 1)) as int;
        let lower = (magnitude(precision, (i - 1) as nat) + magnitude(precision, i)) as int;
        if j + 1 < i {
            lemma_magnitude_increases(precision, j, (i - 1) as nat);
            lemma_magnitude_increases(precision, j + 1, i);
            assert(upper * f < lower * f) by (nonlinear_arith)
                requires
                    upper < lower,
                    f > 0,
            ;
        } else {
            assert(upper == lower);
            assert(i % 2 == 0 && j % 2 == 0);
        }
    }
}

/// A number rounds to itself.
pub proof fn lemma_rounding_keeps_numbers(precision: nat, top: nat, i: nat)
    requires
        precision >= 2,
        i < top,
    ensures
        nearest(precision, top, magnitude(precision, i), 0, i),
{
    lemma2_to64();
    lemma_magnitude_increases(precision, i, i + 1);
    let upper = (magnitude(precision, i) + magnitude(precision, i + 1)) as int;
    assert(upper * pow2(0) == upper) by (nonlinear_arith)
        requires
            pow2(0) == 1,
    ;
    if i > 0 {
        lemma_magnitude_increases(precision, (i - 1) as nat, i);
        let lower = (magnitude(precision, (i - 1) as nat) + magnitude(precision, i)) as int;
        assert(lower * pow2(0) == lower) by (nonlinear_arith)
            requires
                pow2(0) == 1,
        ;
    }
}

/// The number with this sign and index.
spec fn made(negative: bool, index: nat) -> F64 {
    F64 {
        bits: if negative {
            (SIGN64 + index) as u64
        } else {
            index as u64
        },
    }
}

proof fn lemma_made(negative: bool, index: nat)
    requires
        index <= TOP64,
    ensures
        made(negative, index).parts() == (negative, index),
{
}

/// Two finite numbers have a sum.
pub proof fn lemma_sum(a: F64, b: F64)
    requires
        a.finite(),
        b.finite(),
    ensures
        is_sum(53, TOP64 as nat, a.parts(), b.parts(), a.sum(b).parts()),
        !a.sum(b).nan(),
{
    let sum = a.value() + b.value();
    let size = if sum < 0 {
        (-sum) as nat
    } else {
        sum as nat
    };
    let index = lemma_nearest_exists(53, TOP64 as nat, size, 0, 0);
    let r = made(sum < 0 || (sum == 0 && a.negative() && b.negative()), index);
    lemma_made(sum < 0 || (sum == 0 && a.negative() && b.negative()), index);
    assert(is_sum(53, TOP64 as nat, a.parts(), b.parts(), r.parts()));
}

/// The product of two finite numbers is a number with the sign that theirs give.
pub proof fn lemma_product_sign(a: F64, b: F64)
    requires
        a.finite(),
        b.finite(),
    ensures
        is_product(53, TOP64 as nat, 1074, a.parts(), b.parts(), a.product(b).parts()),
        !a.product(b).nan(),
        a.product(b).negative() == (a.negative() != b.negative()),
{
    let index = lemma_nearest_exists(
        53,
        TOP64 as nat,
        magnitude(53, a.index()) * magnitude(53, b.index()),
        1074,
        0,
    );
    let r = made(a.negative() != b.negative(), index);
    lemma_made(a.negative() != b.negative(), index);
    assert(is_product(53, TOP64 as nat, 1074, a.parts(), b.parts(), r.parts()));
}

proof fn lemma_ratio_exists(top: nat, n: nat, d: nat, i: nat) -> (index: nat)
    requires
        i <= top,
        i > 0 ==> {
            let middle = (magnitude(53, (i - 1) as nat) + magnitude(53, i)) * d;
            2 * n > middle || (2 * n == middle && i % 2 == 0)
        },
    ensures
        nearest_ratio(53, top, n, d, index),
    decreases top - i,
{
    if nearest_ratio(53, top, n, d, i) {
        i
    } else {
        lemma_ratio_exists(top, n, d, i + 1)
    }
}

/// The quotient of a number by a finite one other than zero is a number with the sign
/// that theirs give.
pub proof fn lemma_quotient_sign(a: F64, b: F64)
    requires
        !a.nan(),
        b.finite(),
        b.index() > 0,
    ensures
        is_quotient(53, TOP64 as nat, 1074, a.parts(), b.parts(), a.quotient(b).parts()),
        !a.quotient(b).nan(),
        a.quotient(b).negative() == (a.negative() != b.negative()),
{
    let index: nat = if a.index() == TOP64 {
        TOP64 as nat
    } else {
        lemma_ratio_exists(
            TOP64 as nat,
            magnitude(53, a.index()) * pow2(1074),
            magnitude(53, b.index()),
            0,
        )
    };
    let r = made(a.negative() != b.negative(), index);
    lemma_made(a.negative() != b.negative(), index);
    assert(is_quotient(53, TOP64 as nat, 1074, a.parts(), b.parts(), r.parts()));
}

/// Nothing over a finite number other than zero is nothing.
pub proof fn lemma_nothing_over(a: F64, b: F64)
    requires
        a.index() == 0,
        b.finite(),
        b.index() > 0,
    ensures
        a.quotient(b).index() == 0,
{
    lemma_quotient_sign(a, b);
    lemma_pow2_pos(52);
    lemma2_to64();
    assert(magnitude(53, 0) == 0 && magnitude(53, 1) == 1);
    lemma_magnitude_increases(53, 0, b.index());
    let zero = made(a.negative() != b.negative(), 0);
    lemma_made(a.negative() != b.negative(), 0);
    assert(magnitude(53, 0) * pow2(1074) == 0) by (nonlinear_arith)
        requires
            magnitude(53, 0) == 0,
    ;
    assert((magnitude(53, 0) + magnitude(53, 1)) * magnitude(53, b.index()) > 0)
        by (nonlinear_arith)
        requires
            magnitude(53, 0) == 0,
            magnitude(53, 1) == 1,
            magnitude(53, b.index()) > 0,
    ;
    assert(is_quotient(53, TOP64 as nat, 1074, a.parts(), b.parts(), zero.parts()));
    lemma_quotient_unique(
        53,
        TOP64 as nat,
        1074,
        a.parts(),
        b.parts(),
        a.quotient(b).parts(),
        zero.parts(),
    );
}

/// Nothing times a finite number is nothing.
pub proof fn lemma_nothing_times(a: F64, b: F64)
    requires
        a.finite(),
        b.index() == 0,
    ensures
        a.product(b).index() == 0,
{
    lemma_product_sign(a, b);
    lemma_pow2_pos(52);
    lemma_pow2_pos(1074);
    lemma2_to64();
    assert(magnitude(53, 0) == 0 && magnitude(53, 1) == 1);
    let zero = made(a.negative() != b.negative(), 0);
    lemma_made(a.negative() != b.negative(), 0);
    assert(magnitude(53, a.index()) * magnitude(53, 0) == 0) by (nonlinear_arith)
        requires
            magnitude(53, 0) == 0,
    ;
    assert((magnitude(53, 0) + magnitude(53, 1)) * pow2(1074) > 0) by (nonlinear_arith)
        requires
            magnitude(53, 0) == 0,
            magnitude(53, 1) == 1,
            pow2(1074) > 0,
    ;
    assert(is_product(53, TOP64 as nat, 1074, a.parts(), b.parts(), zero.parts()));
    lemma_product_unique(
        53,
        TOP64 as nat,
        1074,
        a.parts(),
        b.parts(),
        a.product(b).parts(),
        zero.parts(),
    );
}

/// The sign of a finite number's value.
proof fn lemma_value_sign(a: F64)
    requires
        a.finite(),
    ensures
        a.rank() > 0 <==> a.value() > 0,
        a.rank() == 0 <==> a.value() == 0,
{
    let zero = F64 { bits: 0 };
    lemma_pow2_pos(52);
    assert(magnitude(53, 0) == 0);
    assert(zero.value() == 0 && zero.rank() == 0 && zero.finite());
    lemma_rank_orders_values(zero, a);
    lemma_rank_orders_values(a, zero);
}

/// Adding what is not above zero raises no number, adding what is not below zero lowers
/// none, and adding zero moves none.
pub proof fn lemma_sum_moves(a: F64, b: F64)
    requires
        a.finite(),
        !b.nan(),
    ensures
        !a.sum(b).nan(),
        b.rank() <= 0 ==> a.sum(b).rank() <= a.rank(),
        b.rank() >= 0 ==> a.sum(b).rank() >= a.rank(),
        b.rank() == 0 ==> a.sum(b).rank() == a.rank(),
{
    let r = a.sum(b);
    if b.finite() {
        lemma_sum(a, b);
        lemma_value_sign(a);
        lemma_value_sign(b);
        let sum = a.value() + b.value();
        let size = if sum < 0 {
            (-sum) as nat
        } else {
            sum as nat
        };
        let own = magnitude(53, a.index());
        lemma_rounding_keeps_numbers(53, TOP64 as nat, a.index());
        if size <= own {
            lemma_rounding_keeps_order(53, TOP64 as nat, size, own, 0, r.index(), a.index());
        }
        if own <= size {
            lemma_rounding_keeps_order(53, TOP64 as nat, own, size, 0, a.index(), r.index());
        }
    } else {
        assert(is_sum(53, TOP64 as nat, a.parts(), b.parts(), b.parts()));
        lemma_sum_unique(53, TOP64 as nat, a.parts(), b.parts(), r.parts(), b.parts());
    }
}

/// Taking away what is not below zero raises no number, and taking away what is not above
/// zero lowers none.
pub proof fn lemma_difference_moves(a: F64, d: F64)
    requires
        a.finite(),
        !d.nan(),
    ensures
        !a.difference(d).nan(),
        d.rank() >= 0 ==> a.difference(d).rank() <= a.rank(),
        d.rank() <= 0 ==> a.difference(d).rank() >= a.rank(),
        d.rank() == 0 ==> a.difference(d).rank() == a.rank(),
{
    let b = d.opposite();
    assert(b.index() == d.index() && b.negative() == !d.negative());
    lemma_sum_moves(a, b);
}

} // verus!
