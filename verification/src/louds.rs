//! Bitmaps, and what they say of ordered trees and of ranges.
//!
//! A tree is written breadth first: for each node a one per child and then a
//! zero, behind a one for the root. A list of ranges is written alike, with a
//! zero first.
use vstd::prelude::*;

verus! {

/// The bit of a byte at a place, the lowest first.
pub open spec fn bit_of(byte: u8, place: int) -> bool
    decreases place,
{
    if place <= 0 {
        byte % 2 == 1
    } else {
        bit_of(byte / 2, place - 1)
    }
}

/// The bits in bytes.
pub open spec fn bits_in(data: Seq<u8>, count: nat) -> Seq<bool> {
    Seq::new(count, |i: int| bit_of(data[i / 8], i % 8))
}

/// How many bytes a bitmap takes: words of 64 bits.
pub open spec fn bitmap_size(count: nat) -> nat {
    (8 * ((count + 63) / 64)) as nat
}

/// That the bits behind the first `count` are zero.
pub open spec fn padding_clear(data: Seq<u8>, count: nat) -> bool {
    forall|i: int|
        count <= i < 8 * data.len() ==> !(#[trigger] bits_in(data, 8 * data.len())[i])
}

/// Reads one bit.
pub fn get_bit(data: &[u8], index: u64) -> (r: bool)
    requires
        index < 8 * data@.len(),
    ensures
        r == bit_of(data@[index as int / 8], index as int % 8),
{
    let mut byte: u8 = data[(index / 8) as usize];
    let mut place: u64 = index % 8;
    while place > 0
        invariant
            index < 8 * data@.len(),
            place < 8,
            bit_of(byte, place as int) == bit_of(data@[index as int / 8], index as int % 8),
        decreases place,
    {
        byte = byte / 2;
        place -= 1;
    }
    byte % 2 == 1
}

/// For each zero, how many ones stand before it.
pub open spec fn starts_of(bits: Seq<bool>) -> Seq<u32>
    decreases bits.len(),
{
    if bits.len() == 0 {
        Seq::empty()
    } else {
        let s = starts_of(bits.drop_last());
        if bits.last() {
            s
        } else {
            s.push((bits.len() - 1 - s.len()) as u32)
        }
    }
}

/// For each one, the number of the last zero before it; the first one has none
/// and counts as its own.
pub open spec fn parents_of(bits: Seq<bool>) -> Seq<u32>
    decreases bits.len(),
{
    if bits.len() == 0 {
        Seq::empty()
    } else {
        let p = parents_of(bits.drop_last());
        if bits.last() {
            p.push(
                if p.len() == 0 {
                    0
                } else {
                    (bits.len() - 2 - p.len()) as u32
                },
            )
        } else {
            p
        }
    }
}

/// Where the bits with this value stand.
pub open spec fn places_of(bits: Seq<bool>, value: bool) -> Seq<u32>
    decreases bits.len(),
{
    if bits.len() == 0 {
        Seq::empty()
    } else {
        let p = places_of(bits.drop_last(), value);
        if bits.last() == value {
            p.push((bits.len() - 1) as u32)
        } else {
            p
        }
    }
}

/// How many zeros stand before an index.
pub open spec fn zeros_before(bits: Seq<bool>, i: int) -> int {
    starts_of(bits.take(i)).len() as int
}

/// That bits are a tree of `n` nodes: a root, and every further node behind its
/// parent's turn and before its own.
pub open spec fn is_tree(bits: Seq<bool>, n: nat) -> bool {
    &&& bits.len() == 2 * n + 1
    &&& bits[0]
    &&& parents_of(bits).len() == n
    &&& forall|i: int|
        0 < i < bits.len() && #[trigger] bits[i] ==> 1 <= zeros_before(bits, i) <= i - zeros_before(
            bits,
            i,
        )
}

/// That bits are `n` ranges of `m` items in all.
pub open spec fn is_ranges(bits: Seq<bool>, n: nat, m: nat) -> bool {
    &&& bits.len() == m + n + 1
    &&& !bits[0]
    &&& starts_of(bits).len() == n + 1
    &&& starts_of(bits)[n as int] == m
}

/// What is wrong at an index of bits that should be a tree of `n` nodes: nothing, or
/// whether a node stands before its parent's turn.
pub open spec fn fault_at(bits: Seq<bool>, n: nat, i: int) -> Option<bool> {
    let zeros = zeros_before(bits, i);
    let ones = i - zeros;
    if bits[i] {
        if ones >= n || (ones == 0 && i != 0) || (ones > 0 && zeros == 0) {
            Some(false)
        } else if ones > 0 && zeros > ones {
            Some(true)
        } else {
            None
        }
    } else if zeros > n || (zeros == 0 && i != 1) {
        Some(false)
    } else {
        None
    }
}

/// What is wrong first from an index on.
pub open spec fn tree_fault(bits: Seq<bool>, n: nat, i: int) -> Option<bool>
    decreases bits.len() - i,
{
    if i < 0 || i >= bits.len() {
        if parents_of(bits).len() == n {
            None
        } else {
            Some(false)
        }
    } else if fault_at(bits, n, i) is Some {
        fault_at(bits, n, i)
    } else {
        tree_fault(bits, n, i + 1)
    }
}

/// Whether bits are ranges, but with items behind the last.
pub open spec fn items_left(bits: Seq<bool>, n: nat, m: nat) -> bool {
    !bits[0] && starts_of(bits).len() == n + 1 && starts_of(bits)[n as int] != m
}

/// Every bit is a zero or a one.
pub proof fn lemma_counts(bits: Seq<bool>)
    ensures
        starts_of(bits).len() + parents_of(bits).len() == bits.len(),
    decreases bits.len(),
{
    if bits.len() > 0 {
        lemma_counts(bits.drop_last());
    }
}

/// A prefix holds no more zeros and no more ones than the whole.
pub proof fn lemma_prefix(bits: Seq<bool>, i: int)
    requires
        0 <= i <= bits.len(),
    ensures
        starts_of(bits.take(i)).len() <= starts_of(bits).len(),
        parents_of(bits.take(i)).len() <= parents_of(bits).len(),
        starts_of(bits.take(i)) == starts_of(bits).take(starts_of(bits.take(i)).len() as int),
    decreases bits.len(),
{
    if i == bits.len() {
        assert(bits.take(i) =~= bits);
        assert(starts_of(bits).take(starts_of(bits).len() as int) =~= starts_of(bits));
    } else {
        let rest = bits.drop_last();
        assert(rest.take(i) =~= bits.take(i));
        lemma_prefix(rest, i);
        let k = starts_of(bits.take(i)).len() as int;
        assert(starts_of(bits).take(k) =~= starts_of(rest).take(k));
    }
}

/// One more bit.
pub proof fn lemma_next(bits: Seq<bool>, i: int)
    requires
        0 <= i < bits.len(),
    ensures
        starts_of(bits.take(i + 1)) == if bits[i] {
            starts_of(bits.take(i))
        } else {
            starts_of(bits.take(i)).push((i - starts_of(bits.take(i)).len()) as u32)
        },
        parents_of(bits.take(i + 1)) == if bits[i] {
            parents_of(bits.take(i)).push(
                if parents_of(bits.take(i)).len() == 0 {
                    0
                } else {
                    (i - 1 - parents_of(bits.take(i)).len()) as u32
                },
            )
        } else {
            parents_of(bits.take(i))
        },
        forall|v: bool|
            places_of(bits.take(i + 1), v) == if bits[i] == v {
                (#[trigger] places_of(bits.take(i), v)).push(i as u32)
            } else {
                places_of(bits.take(i), v)
            },
{
    assert(bits.take(i + 1).drop_last() =~= bits.take(i));
    assert(bits.take(i + 1).last() == bits[i]);
    assert forall|v: bool|
        places_of(bits.take(i + 1), v) == if bits[i] == v {
            (#[trigger] places_of(bits.take(i), v)).push(i as u32)
        } else {
            places_of(bits.take(i), v)
        } by {
        assert(bits.take(i + 1).drop_last() =~= bits.take(i));
    }
}

/// Places ascend, hold the value, and there is one for every bit with it.
pub proof fn lemma_places(bits: Seq<bool>, value: bool)
    requires
        bits.len() <= u32::MAX,
    ensures
        forall|i: int|
            0 <= i < places_of(bits, value).len() ==> (#[trigger] places_of(bits, value)[i])
                < bits.len() && bits[places_of(bits, value)[i] as int] == value,
        forall|i: int, j: int|
            0 <= i < j < places_of(bits, value).len() ==> places_of(bits, value)[i] < places_of(
                bits,
                value,
            )[j],
        forall|k: int|
            0 <= k < bits.len() && #[trigger] bits[k] == value ==> places_of(bits, value).contains(
                k as u32,
            ),
        places_of(bits, true).len() + places_of(bits, false).len() == bits.len(),
    decreases bits.len(),
{
    if bits.len() > 0 {
        let rest = bits.drop_last();
        lemma_places(rest, value);
        let p = places_of(rest, value);
        let q = places_of(bits, value);
        assert forall|k: int| 0 <= k < bits.len() && #[trigger] bits[k] == value implies q.contains(
            k as u32,
        ) by {
            if k < rest.len() {
                assert(rest[k] == value);
                assert(p.contains(k as u32));
                let i = choose|i: int| 0 <= i < p.len() && p[i] == k as u32;
                assert(q[i] == k as u32);
            } else {
                assert(q[q.len() - 1] == k as u32);
            }
        }
    }
}

/// The bits of a file as a sequence.
pub fn scan_places(data: &[u8], count: u32, value: bool) -> (r: Vec<u32>)
    requires
        count <= 8 * data@.len(),
    ensures
        r@ == places_of(bits_in(data@, count as nat), value),
{
    let ghost bits = bits_in(data@, count as nat);
    let mut out: Vec<u32> = Vec::new();
    let mut i: u32 = 0;
    assert(bits.take(0) =~= Seq::empty());
    while i < count
        invariant
            i <= count <= 8 * data@.len(),
            bits == bits_in(data@, count as nat),
            out@ == places_of(bits.take(i as int), value),
        decreases count - i,
    {
        proof {
            lemma_next(bits, i as int);
        }
        if get_bit(data, i as u64) == value {
            out.push(i);
        }
        i += 1;
    }
    assert(bits.take(i as int) =~= bits);
    out
}

/// Reads a tree: parents, and where the children of each node begin.
pub fn scan_tree(data: &[u8], n: u32) -> (r: Result<(Vec<u32>, Vec<u32>), bool>)
    requires
        2 * n + 1 <= 8 * data@.len(),
        1 <= n,
    ensures
        match r {
            Ok((parents, starts)) => {
                let bits = bits_in(data@, (2 * n + 1) as nat);
                &&& is_tree(bits, n as nat)
                &&& parents@ == parents_of(bits)
                &&& starts@ == starts_of(bits)
                &&& links_agree(parents@, starts@, n as int)
            },
            Err(early) => {
                let bits = bits_in(data@, (2 * n + 1) as nat);
                !is_tree(bits, n as nat) && tree_fault(bits, n as nat, 0) == Some(early)
            },
        },
{
    let ghost bits = bits_in(data@, (2 * n + 1) as nat);
    let mut parents: Vec<u32> = Vec::new();
    let mut starts: Vec<u32> = Vec::new();
    let total: u64 = 2 * (n as u64) + 1;
    let mut i: u64 = 0;
    assert(bits.take(0) =~= Seq::empty());
    while i < total
        invariant
            i <= total,
            total == 2 * n + 1,
            total <= 8 * data@.len(),
            1 <= n,
            bits == bits_in(data@, (2 * n + 1) as nat),
            tree_fault(bits, n as nat, 0) == tree_fault(bits, n as nat, i as int),
            parents@ == parents_of(bits.take(i as int)),
            starts@ == starts_of(bits.take(i as int)),
            parents@.len() + starts@.len() == i,
            parents@.len() <= n,
            starts@.len() <= n + 1,
            i > 0 ==> bits[0] && parents@.len() > 0 && parents@[0] == 0,
            i > 1 ==> !bits[1] && starts@.len() > 0,
            i <= 1 ==> starts@.len() == 0,
            forall|j: int|
                0 < j < i && #[trigger] bits[j] ==> 1 <= zeros_before(bits, j) <= j - zeros_before(
                    bits,
                    j,
                ),
            forall|c: int| 0 < c < parents@.len() ==> (#[trigger] parents@[c]) < c && parents@[c]
                < starts@.len(),
            forall|k: int|
                0 <= k < starts@.len() ==> 1 <= #[trigger] starts@[k] <= parents@.len(),
            forall|k: int, l: int|
                0 <= k <= l < starts@.len() ==> #[trigger] starts@[k] <= #[trigger] starts@[l],
            forall|k: int, c: int|
                0 <= k < starts@.len() && 0 < c < parents@.len() ==> (#[trigger] starts@[k] <= c
                    <==> k <= #[trigger] parents@[c]),
        decreases total - i,
    {
        proof {
            lemma_next(bits, i as int);
            lemma_counts(bits.take(i + 1));
            lemma_prefix(bits, i + 1);
            lemma_counts(bits);
            lemma_counts(bits.take(i as int));
        }
        if get_bit(data, i) {
            let state: usize = parents.len();
            if state >= n as usize {
                return Err(false);
            }
            if state == 0 {
                if i != 0 {
                    return Err(false);
                }
                parents.push(0);
            } else {
                assert(starts@.len() == zeros_before(bits, i as int));
                assert(bits[i as int]);
                if starts.len() == 0 {
                    return Err(false);
                }
                if starts.len() > state {
                    return Err(true);
                }
                parents.push((starts.len() - 1) as u32);
            }
        } else {
            if starts.len() > n as usize || (starts.len() == 0 && i != 1) {
                proof {
                    if starts@.len() == 0 && i >= 2 {
                        assert(false);
                    }
                }
                return Err(false);
            }
            starts.push(parents.len() as u32);
        }
        i += 1;
    }
    assert(bits.take(i as int) =~= bits);
    proof {
        lemma_counts(bits);
    }
    if parents.len() != n as usize {
        return Err(false);
    }
    Ok((parents, starts))
}

/// That the children of a node, by where they begin, are those whose parent it
/// is.
pub open spec fn links_agree(parents: Seq<u32>, starts: Seq<u32>, n: int) -> bool {
    &&& parents.len() == n
    &&& starts.len() == n + 1
    &&& parents[0] == 0
    &&& forall|s: int| 0 < s < n ==> (#[trigger] parents[s]) < s
    &&& forall|s: int| 0 <= s <= n ==> 1 <= #[trigger] starts[s] <= n
    &&& forall|s: int, t: int| 0 <= s <= t <= n ==> #[trigger] starts[s] <= #[trigger] starts[t]
    &&& forall|s: int, c: int|
        0 <= s <= n && 0 < c < n ==> (#[trigger] starts[s] <= c <==> s <= #[trigger] parents[c])
}

/// Reads ranges: where each begins, and behind the last where it ends.
pub fn scan_ranges(data: &[u8], n: u32, m: u32) -> (r: Result<Vec<u32>, bool>)
    requires
        m + n + 1 <= 8 * data@.len(),
        m + n + 1 <= u32::MAX,
    ensures
        match r {
            Ok(starts) => {
                let bits = bits_in(data@, (m + n + 1) as nat);
                &&& is_ranges(bits, n as nat, m as nat)
                &&& starts@ == starts_of(bits)
                &&& starts@[0] == 0
                &&& forall|k: int, l: int|
                    0 <= k <= l <= n ==> #[trigger] starts@[k] <= #[trigger] starts@[l]
            },
            Err(left) => {
                let bits = bits_in(data@, (m + n + 1) as nat);
                !is_ranges(bits, n as nat, m as nat) && left == items_left(
                    bits,
                    n as nat,
                    m as nat,
                )
            },
        },
{
    let ghost bits = bits_in(data@, (m + n + 1) as nat);
    let mut starts: Vec<u32> = Vec::new();
    let total: u32 = m + n + 1;
    let mut i: u32 = 0;
    assert(bits.take(0) =~= Seq::empty());
    while i < total
        invariant
            i <= total,
            total == m + n + 1,
            total <= 8 * data@.len(),
            bits == bits_in(data@, (m + n + 1) as nat),
            starts@ == starts_of(bits.take(i as int)),
            starts@.len() <= n + 1,
            starts@.len() <= i,
            i > 0 ==> !bits[0] && starts@.len() > 0 && starts@[0] == 0,
            forall|k: int| 0 <= k < starts@.len() ==> (#[trigger] starts@[k]) <= i - starts@.len(),
            forall|k: int, l: int|
                0 <= k <= l < starts@.len() ==> #[trigger] starts@[k] <= #[trigger] starts@[l],
        decreases total - i,
    {
        proof {
            lemma_next(bits, i as int);
            lemma_prefix(bits, i + 1);
        }
        if !get_bit(data, i as u64) {
            if starts.len() > n as usize {
                return Err(false);
            }
            starts.push(i - starts.len() as u32);
        } else if i == 0 {
            return Err(false);
        }
        i += 1;
    }
    assert(bits.take(i as int) =~= bits);
    if starts.len() != n as usize + 1 {
        return Err(false);
    }
    if starts[n as usize] != m {
        return Err(true);
    }
    Ok(starts)
}

} // verus!
