//! The longest chain of samples in which each two neighbours are far enough
//! apart.
use vstd::prelude::*;

verus! {

/// The longest chain to a place among the first `n` from which `i` can follow.
pub open spec fn longest_before(gate: spec_fn(int, int) -> bool, i: int, n: int) -> nat
    decreases i, n,
{
    if n <= 0 || n > i {
        0
    } else {
        let before = longest_before(gate, i, n - 1);
        if gate(i, n - 1) && chain_length(gate, n - 1) > before {
            chain_length(gate, n - 1)
        } else {
            before
        }
    }
}

/// How many places the longest chain that ends at `i` has.
pub open spec fn chain_length(gate: spec_fn(int, int) -> bool, i: int) -> nat
    decreases i, i + 1,
{
    if i < 0 {
        0
    } else {
        longest_before(gate, i, i) + 1
    }
}

/// The earliest place from `j` on from which a longest chain goes on to `i`.
pub open spec fn earliest(gate: spec_fn(int, int) -> bool, i: int, j: int) -> int
    decreases i - j,
{
    if j >= i {
        i
    } else if gate(i, j) && chain_length(gate, j) + 1 == chain_length(gate, i) {
        j
    } else {
        earliest(gate, i, j + 1)
    }
}

/// The longest chain that ends at `i`; of several, the one whose places before
/// the end are earliest, from the end on.
pub open spec fn chain_to(gate: spec_fn(int, int) -> bool, i: int) -> Seq<int>
    decreases i,
{
    if i < 0 {
        Seq::empty()
    } else {
        let j = earliest(gate, i, 0);
        if 0 <= j < i {
            chain_to(gate, j).push(i)
        } else {
            seq![i]
        }
    }
}

/// Where the longest chain among the first `n` places ends: the last such place,
/// or the first place where no two are far enough apart.
pub open spec fn best_end(gate: spec_fn(int, int) -> bool, n: int) -> int
    decreases n,
{
    if n <= 1 {
        0
    } else {
        let before = best_end(gate, n - 1);
        let length = chain_length(gate, n - 1);
        if length > 1 && length >= chain_length(gate, before) {
            n - 1
        } else {
            before
        }
    }
}

/// Whether places rise, and each two neighbours are far enough apart.
pub open spec fn is_chain(gate: spec_fn(int, int) -> bool, s: Seq<int>) -> bool {
    &&& s.len() > 0 ==> s[0] >= 0
    &&& forall|k: int|
        0 <= k < s.len() - 1 ==> #[trigger] s[k] < s[k + 1] && gate(s[k + 1], s[k])
}

proof fn lemma_longest_before(gate: spec_fn(int, int) -> bool, i: int, n: int)
    requires
        0 <= n <= i,
    ensures
        forall|j: int|
            0 <= j < n && gate(i, j) ==> #[trigger] chain_length(gate, j) <= longest_before(
                gate,
                i,
                n,
            ),
        longest_before(gate, i, n) > 0 ==> exists|j: int|
            0 <= j < n && gate(i, j) && #[trigger] chain_length(gate, j) == longest_before(
                gate,
                i,
                n,
            ),
    decreases n,
{
    if n > 0 {
        lemma_longest_before(gate, i, n - 1);
        let before = longest_before(gate, i, n - 1);
        if gate(i, n - 1) && chain_length(gate, n - 1) > before {
            assert(chain_length(gate, n - 1) == longest_before(gate, i, n));
        } else if before > 0 {
            let j = choose|j: int|
                0 <= j < n - 1 && gate(i, j) && #[trigger] chain_length(gate, j) == before;
            assert(chain_length(gate, j) == longest_before(gate, i, n));
        }
    }
}

proof fn lemma_earliest(gate: spec_fn(int, int) -> bool, i: int, j: int)
    requires
        0 <= j <= i,
    ensures
        j <= earliest(gate, i, j) <= i,
        earliest(gate, i, j) < i ==> gate(i, earliest(gate, i, j)) && chain_length(
            gate,
            earliest(gate, i, j),
        ) + 1 == chain_length(gate, i),
        forall|k: int|
            j <= k < earliest(gate, i, j) ==> !(gate(i, k) && #[trigger] chain_length(gate, k) + 1
                == chain_length(gate, i)),
    decreases i - j,
{
    if j < i && !(gate(i, j) && chain_length(gate, j) + 1 == chain_length(gate, i)) {
        lemma_earliest(gate, i, j + 1);
    }
}

/// The chain to a place is a chain, ends there, and has the length of the longest.
pub proof fn lemma_chain_to(gate: spec_fn(int, int) -> bool, i: int)
    requires
        i >= 0,
    ensures
        is_chain(gate, chain_to(gate, i)),
        chain_to(gate, i).len() == chain_length(gate, i),
        chain_to(gate, i).last() == i,
        forall|k: int|
            0 <= k < chain_to(gate, i).len() ==> 0 <= #[trigger] chain_to(gate, i)[k] <= i,
    decreases i,
{
    let j = earliest(gate, i, 0);
    lemma_earliest(gate, i, 0);
    lemma_longest_before(gate, i, i);
    if j < i {
        lemma_chain_to(gate, j);
        let before = chain_to(gate, j);
        let s = before.push(i);
        assert forall|k: int| 0 <= k < s.len() - 1 implies #[trigger] s[k] < s[k + 1] && gate(
            s[k + 1],
            s[k],
        ) by {
            if k < before.len() - 1 {
                assert(before[k] < before[k + 1]);
            } else {
                assert(s[k] == before.last());
            }
        }
        assert forall|k: int| 0 <= k < s.len() implies 0 <= #[trigger] s[k] <= i by {
            if k < before.len() {
                assert(0 <= before[k] <= j);
            }
        }
        assert(s[0] == before[0]);
    } else {
        if longest_before(gate, i, i) > 0 {
            let k = choose|k: int|
                0 <= k < i && gate(i, k) && #[trigger] chain_length(gate, k) == longest_before(
                    gate,
                    i,
                    i,
                );
            assert(chain_length(gate, k) + 1 == chain_length(gate, i));
            assert(false);
        }
    }
}

/// No chain to a place is longer than the longest.
pub proof fn lemma_chain_bound(gate: spec_fn(int, int) -> bool, s: Seq<int>)
    requires
        is_chain(gate, s),
        s.len() > 0,
    ensures
        s.last() >= 0,
        s.len() <= chain_length(gate, s.last()),
    decreases s.len(),
{
    if s.len() > 1 {
        let rest = s.drop_last();
        assert(is_chain(gate, rest)) by {
            assert forall|k: int| 0 <= k < rest.len() - 1 implies #[trigger] rest[k] < rest[k + 1]
                && gate(rest[k + 1], rest[k]) by {
                assert(s[k] < s[k + 1]);
            }
        }
        lemma_chain_bound(gate, rest);
        let k = s.len() - 2;
        assert(s[k] < s[k + 1]);
        lemma_longest_before(gate, s.last(), s.last());
        assert(chain_length(gate, rest.last()) <= longest_before(gate, s.last(), s.last()));
    }
}

pub proof fn lemma_best_end(gate: spec_fn(int, int) -> bool, n: int)
    requires
        n >= 1,
    ensures
        0 <= best_end(gate, n) < n,
        forall|k: int|
            0 <= k < n ==> #[trigger] chain_length(gate, k) <= chain_length(
                gate,
                best_end(gate, n),
            ),
    decreases n,
{
    if n > 1 {
        lemma_best_end(gate, n - 1);
    }
}

/// The kept places: a chain, and no chain of the same places is longer.
pub proof fn lemma_longest(gate: spec_fn(int, int) -> bool, n: int)
    requires
        n >= 1,
    ensures
        is_chain(gate, chain_to(gate, best_end(gate, n))),
        forall|k: int|
            0 <= k < chain_to(gate, best_end(gate, n)).len() ==> 0 <= #[trigger] chain_to(
                gate,
                best_end(gate, n),
            )[k] < n,
        forall|s: Seq<int>|
            #[trigger] is_chain(gate, s) && s.len() > 0 && s.last() < n ==> s.len() <= chain_to(
                gate,
                best_end(gate, n),
            ).len(),
{
    let best = best_end(gate, n);
    lemma_best_end(gate, n);
    lemma_chain_to(gate, best);
    assert forall|s: Seq<int>|
        #[trigger] is_chain(gate, s) && s.len() > 0 && s.last() < n implies s.len() <= chain_to(
        gate,
        best,
    ).len() by {
        lemma_chain_bound(gate, s);
        assert(chain_length(gate, s.last()) <= chain_length(gate, best));
    }
}

/// That a length and a place before are those of the places from `j` on.
pub open spec fn covers(
    gate: spec_fn(int, int) -> bool,
    i: int,
    j: int,
    length: nat,
    before: int,
) -> bool {
    &&& length >= 1
    &&& forall|k: int| j <= k < i && gate(i, k) ==> #[trigger] chain_length(gate, k) + 1 <= length
    &&& length > 1 ==> {
        &&& j <= before < i
        &&& gate(i, before)
        &&& chain_length(gate, before) + 1 == length
        &&& forall|k: int|
            j <= k < before ==> !(gate(i, k) && #[trigger] chain_length(gate, k) + 1 == length)
    }
    &&& length == 1 ==> before == i
}

/// What covers all places is the longest chain and the earliest place before.
pub proof fn lemma_covers_all(
    gate: spec_fn(int, int) -> bool,
    i: int,
    length: nat,
    before: int,
)
    requires
        i >= 0,
        covers(gate, i, 0, length, before),
    ensures
        length == chain_length(gate, i),
        before == earliest(gate, i, 0),
{
    lemma_longest_before(gate, i, i);
    let longest = longest_before(gate, i, i);
    if longest > 0 {
        let k = choose|k: int|
            0 <= k < i && gate(i, k) && #[trigger] chain_length(gate, k) == longest;
        assert(chain_length(gate, k) + 1 <= length);
    }
    if length > 1 {
        assert(chain_length(gate, before) <= longest);
    }
    assert(length == chain_length(gate, i));
    lemma_earliest(gate, i, 0);
    let e = earliest(gate, i, 0);
    if e < i {
        if length == 1 {
            assert(chain_length(gate, e) + 1 == chain_length(gate, i));
            lemma_chain_positive(gate, e);
        } else if e < before {
            assert(!(gate(i, e) && chain_length(gate, e) + 1 == length));
        } else if before < e {
            assert(!(gate(i, before) && chain_length(gate, before) + 1 == chain_length(gate, i)));
        }
    } else if length > 1 {
        assert(!(gate(i, before) && chain_length(gate, before) + 1 == chain_length(gate, i)));
    }
}

proof fn lemma_chain_positive(gate: spec_fn(int, int) -> bool, i: int)
    requires
        i >= 0,
    ensures
        chain_length(gate, i) >= 1,
{
}

/// The place before lies before, or is the place itself.
pub proof fn lemma_earliest_range(gate: spec_fn(int, int) -> bool, i: int)
    requires
        i >= 0,
    ensures
        0 <= earliest(gate, i, 0) <= i,
{
    lemma_earliest(gate, i, 0);
}

/// A chain to a place has no more places than there are up to it.
pub proof fn lemma_length_bound(gate: spec_fn(int, int) -> bool, i: int)
    requires
        i >= 0,
    ensures
        chain_length(gate, i) <= i + 1,
    decreases i,
{
    lemma_longest_before(gate, i, i);
    if longest_before(gate, i, i) > 0 {
        let j = choose|j: int|
            0 <= j < i && gate(i, j) && #[trigger] chain_length(gate, j) == longest_before(
                gate,
                i,
                i,
            );
        lemma_length_bound(gate, j);
    }
}

} // verus!
