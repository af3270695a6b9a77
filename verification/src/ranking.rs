//! Stable ranking: greater keys first, equal keys in the order they came in.
use vstd::prelude::*;

use crate::float::F64;

verus! {

/// Puts a place behind all those whose key is not less.
pub open spec fn insert_ranked(keys: Seq<int>, order: Seq<int>, i: int) -> Seq<int>
    decreases order.len(),
{
    if order.len() > 0 && keys[order.last()] < keys[i] {
        insert_ranked(keys, order.drop_last(), i).push(order.last())
    } else {
        order.push(i)
    }
}

/// The places of the first `n` keys, the greatest key first.
pub open spec fn ranking_of(keys: Seq<int>, n: nat) -> Seq<int>
    decreases n,
{
    if n == 0 {
        Seq::empty()
    } else {
        insert_ranked(keys, ranking_of(keys, (n - 1) as nat), n - 1)
    }
}

/// The places of keys, the greatest key first.
pub open spec fn ranking(keys: Seq<int>) -> Seq<int> {
    ranking_of(keys, keys.len())
}

/// Whether a place comes before another: by a greater key, or an earlier place.
pub open spec fn ahead(keys: Seq<int>, i: int, j: int) -> bool {
    keys[i] > keys[j] || (keys[i] == keys[j] && i < j)
}

/// Whether an order holds the first `n` places, each once, the greatest key
/// first.
pub open spec fn is_ranking(keys: Seq<int>, n: nat, order: Seq<int>) -> bool {
    &&& order.len() == n
    &&& forall|a: int| 0 <= a < n ==> 0 <= #[trigger] order[a] < n
    &&& forall|a: int, b: int|
        0 <= a < b < n ==> ahead(keys, #[trigger] order[a], #[trigger] order[b])
    &&& forall|i: int| 0 <= i < n ==> #[trigger] order.contains(i)
}

/// Where a place comes to stand.
proof fn lemma_insert(keys: Seq<int>, order: Seq<int>, i: int) -> (at: int)
    ensures
        0 <= at <= order.len(),
        insert_ranked(keys, order, i) == order.insert(at, i),
        at > 0 ==> keys[order[at - 1]] >= keys[i],
        forall|a: int| at <= a < order.len() ==> keys[#[trigger] order[a]] < keys[i],
    decreases order.len(),
{
    if order.len() > 0 && keys[order.last()] < keys[i] {
        let at = lemma_insert(keys, order.drop_last(), i);
        assert(insert_ranked(keys, order, i) =~= order.insert(at, i));
        assert forall|a: int| at <= a < order.len() implies keys[#[trigger] order[a]]
            < keys[i] by {
            if a < order.len() - 1 {
                assert(order.drop_last()[a] == order[a]);
            }
        }
        at
    } else {
        assert(insert_ranked(keys, order, i) =~= order.insert(order.len() as int, i));
        order.len() as int
    }
}

proof fn lemma_ranking_of(keys: Seq<int>, n: nat)
    ensures
        is_ranking(keys, n, ranking_of(keys, n)),
    decreases n,
{
    if n > 0 {
        let before = ranking_of(keys, (n - 1) as nat);
        lemma_ranking_of(keys, (n - 1) as nat);
        let at = lemma_insert(keys, before, n - 1);
        let order = before.insert(at, n - 1);
        assert(ranking_of(keys, n) == order);
        assert forall|a: int| 0 <= a < n implies 0 <= #[trigger] order[a] < n by {
            if a < at {
                assert(order[a] == before[a]);
            } else if a > at {
                assert(order[a] == before[a - 1]);
            }
        }
        assert forall|a: int, b: int| 0 <= a < b < n implies ahead(
            keys,
            #[trigger] order[a],
            #[trigger] order[b],
        ) by {
            if b < at {
                assert(ahead(keys, before[a], before[b]));
            } else if b == at {
                if a < at - 1 {
                    assert(ahead(keys, before[a], before[at - 1]));
                }
            } else {
                assert(order[b] == before[b - 1]);
                if a < at {
                    assert(order[a] == before[a]);
                    assert(ahead(keys, before[a], before[b - 1]));
                } else if a > at {
                    assert(order[a] == before[a - 1]);
                    assert(ahead(keys, before[a - 1], before[b - 1]));
                }
            }
        }
        assert forall|i: int| 0 <= i < n implies #[trigger] order.contains(i) by {
            if i == n - 1 {
                assert(order[at] == i);
            } else {
                assert(before.contains(i));
                let a = before.index_of(i);
                if a < at {
                    assert(order[a] == i);
                } else {
                    assert(order[a + 1] == i);
                }
            }
        }
    }
}

/// A ranking holds every place once, the greatest key first, and among equal keys
/// the earlier place first.
pub proof fn lemma_ranking(keys: Seq<int>)
    ensures
        is_ranking(keys, keys.len(), ranking(keys)),
{
    lemma_ranking_of(keys, keys.len());
}

/// Keys have one ranking.
pub proof fn lemma_ranking_unique(keys: Seq<int>, order: Seq<int>)
    requires
        is_ranking(keys, keys.len(), order),
    ensures
        order == ranking(keys),
{
    lemma_ranking(keys);
    lemma_same_rankings(keys, keys.len(), order, ranking(keys), keys.len());
    assert(order.take(keys.len() as int) =~= order);
    assert(ranking(keys).take(keys.len() as int) =~= ranking(keys));
}

proof fn lemma_same_rankings(keys: Seq<int>, n: nat, x: Seq<int>, y: Seq<int>, k: nat)
    requires
        is_ranking(keys, n, x),
        is_ranking(keys, n, y),
        k <= n,
    ensures
        x.take(k as int) == y.take(k as int),
    decreases k,
{
    if k > 0 {
        lemma_same_rankings(keys, n, x, y, (k - 1) as nat);
        let a = k - 1;
        assert(x[a] == y[a]) by {
            assert(y.contains(x[a]));
            let b = y.index_of(x[a]);
            assert(x.contains(y[a]));
            let c = x.index_of(y[a]);
            if b < a {
                assert(x.take(a)[b] == y.take(a)[b]);
                assert(x[b] == y[b]);
                assert(ahead(keys, x[b], x[a]));
            }
            if c < a {
                assert(x.take(a)[c] == y.take(a)[c]);
                assert(x[c] == y[c]);
                assert(ahead(keys, y[c], y[a]));
            }
            if b > a && c > a {
                assert(ahead(keys, y[a], y[b]));
                assert(ahead(keys, x[a], x[c]));
            }
        }
        assert(x.take(k as int) =~= x.take(a).push(x[a]));
        assert(y.take(k as int) =~= y.take(a).push(y[a]));
    }
}

/// The first places of an order.
pub open spec fn first_places(order: Seq<int>, n: nat) -> Seq<int> {
    if n < order.len() {
        order.take(n as int)
    } else {
        order
    }
}

proof fn lemma_insert_truncated(keys: Seq<int>, order: Seq<int>, i: int, w: nat)
    requires
        forall|a: int, b: int|
            0 <= a < b < order.len() ==> keys[#[trigger] order[a]] >= keys[#[trigger] order[b]],
    ensures
        first_places(insert_ranked(keys, order, i), w) == first_places(
            insert_ranked(keys, first_places(order, w), i),
            w,
        ),
{
    let short = first_places(order, w);
    let a = lemma_insert(keys, order, i);
    let b = lemma_insert(keys, short, i);
    if w < order.len() {
        if a < b {
            assert(keys[order[a]] < keys[i]);
            assert(short[b - 1] == order[b - 1]);
            if a < b - 1 {
                assert(keys[order[a]] >= keys[order[b - 1]]);
            }
        }
        if b < a && b < w {
            assert(short[b] == order[b]);
            assert(keys[order[a - 1]] >= keys[i]);
            if b < a - 1 {
                assert(keys[order[b]] >= keys[order[a - 1]]);
            }
        }
        assert(first_places(order.insert(a, i), w) =~= first_places(short.insert(b, i), w));
    }
}

/// Places as mathematical numbers.
pub open spec fn places_view(places: Seq<usize>) -> Seq<int> {
    places.map_values(|i: usize| i as int)
}

/// Keys as mathematical numbers.
pub open spec fn keys_view(keys: Seq<i64>) -> Seq<int> {
    keys.map_values(|k: i64| k as int)
}

/// The places of the greatest keys.
pub fn rank(keys: &Vec<i64>, width: usize) -> (r: Vec<usize>)
    ensures
        places_view(r@) == first_places(ranking(keys_view(keys@)), width as nat),
        r@.len() <= width,
        r@.len() <= keys@.len(),
        r@.len() == width || r@.len() == keys@.len(),
        forall|a: int| 0 <= a < r@.len() ==> (#[trigger] r@[a]) < keys@.len(),
{
    let ghost all = keys_view(keys@);
    let mut kept: Vec<usize> = Vec::new();
    let mut i: usize = 0;
    assert(places_view(kept@) =~= first_places(ranking_of(all, 0), width as nat));
    while i < keys.len()
        invariant
            i <= keys@.len(),
            all == keys_view(keys@),
            places_view(kept@) == first_places(ranking_of(all, i as nat), width as nat),
            kept@.len() <= width,
            kept@.len() <= i,
            forall|a: int| 0 <= a < kept@.len() ==> (#[trigger] kept@[a]) < i,
        decreases keys@.len() - i,
    {
        let ghost full = ranking_of(all, i as nat);
        let ghost view = places_view(kept@);
        proof {
            lemma_ranking_of(all, i as nat);
            lemma_ranking_of(all, (i + 1) as nat);
            assert forall|a: int, b: int| 0 <= a < b < full.len() implies all[#[trigger] full[a]]
                >= all[#[trigger] full[b]] by {
                assert(ahead(all, full[a], full[b]));
            }
            lemma_insert_truncated(all, full, i as int, width as nat);
        }
        let mut at: usize = kept.len();
        while at > 0 && keys[kept[at - 1]] < keys[i]
            invariant
                at <= kept@.len(),
                i < keys@.len(),
                all == keys_view(keys@),
                view == places_view(kept@),
                forall|a: int| 0 <= a < kept@.len() ==> (#[trigger] kept@[a]) < i,
                forall|a: int| at <= a < kept@.len() ==> all[#[trigger] view[a]] < all[i as int],
            decreases at,
        {
            assert(view[at - 1] == kept@[at - 1]);
            at -= 1;
        }
        proof {
            let there = lemma_insert(all, view, i as int);
            assert(there == at) by {
                if there < at {
                    assert(all[view[at - 1]] < all[i as int]);
                    assert(view[at - 1] == kept@[at - 1]);
                }
                if at < there {
                    assert(all[view[there - 1]] < all[i as int]);
                }
            }
        }
        if at < width {
            if kept.len() == width {
                kept.truncate(width - 1);
            }
            kept.insert(at, i);
        }
        proof {
            let wanted = first_places(view.insert(at as int, i as int), width as nat);
            assert(places_view(kept@) =~= wanted);
            assert forall|a: int| 0 <= a < kept@.len() implies (#[trigger] kept@[a]) < i + 1 by {
                assert(places_view(kept@)[a] == kept@[a]);
            }
        }
        i += 1;
    }
    proof {
        lemma_ranking(all);
        assert(places_view(kept@).len() == kept@.len());
    }
    kept
}

/// Where a score stands: what is no number stands last.
pub open spec fn standing(x: F64) -> int {
    if x.nan() {
        -0x7fff_ffff_ffff_ffff
    } else {
        x.rank()
    }
}

/// Where a score stands.
pub fn standing_of(x: F64) -> (r: i64)
    ensures
        r == standing(x),
{
    if x.is_nan() {
        -0x7fff_ffff_ffff_ffff
    } else {
        x.key()
    }
}

} // verus!
