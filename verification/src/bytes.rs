//! Little-endian numbers in byte sequences.
use vstd::prelude::*;

verus! {

/// The number that bytes hold, least significant byte first.
pub open spec fn le(s: Seq<u8>) -> nat
    decreases s.len(),
{
    if s.len() == 0 {
        0
    } else {
        s[0] as nat + 256 * le(s.drop_first())
    }
}

/// Unfolds [`le`] at a sequence of known length.
pub proof fn lemma_le_unfold(s: Seq<u8>)
    ensures
        s.len() == 2 ==> le(s) == s[0] + 256 * s[1],
        s.len() == 4 ==> le(s) == s[0] + 256 * s[1] + 65536 * s[2] + 16777216 * s[3],
        s.len() == 8 ==> le(s) == le(s.take(4)) + 0x1_0000_0000 * le(s.skip(4)),
    decreases s.len(),
{
    reveal_with_fuel(le, 9);
    if s.len() == 2 {
        assert(s.drop_first()[0] == s[1]);
    }
    if s.len() == 4 {
        assert(s.drop_first()[0] == s[1]);
        assert(s.drop_first().drop_first()[0] == s[2]);
        assert(s.drop_first().drop_first().drop_first()[0] == s[3]);
    }
    if s.len() == 8 {
        let a = s.take(4);
        let b = s.skip(4);
        let t1 = s.drop_first();
        let t2 = t1.drop_first();
        let t3 = t2.drop_first();
        let t4 = t3.drop_first();
        assert(t1[0] == s[1]);
        assert(t2[0] == s[2]);
        assert(t3[0] == s[3]);
        assert(t4 =~= b);
        assert(le(s) == s[0] + 256 * le(t1));
        assert(le(t1) == s[1] + 256 * le(t2));
        assert(le(t2) == s[2] + 256 * le(t3));
        assert(le(t3) == s[3] + 256 * le(b));
        lemma_le_unfold(a);
        assert(a[0] == s[0] && a[1] == s[1] && a[2] == s[2] && a[3] == s[3]);
    }
}

/// Reads two bytes.
pub fn read_u16(s: &[u8]) -> (r: u16)
    requires
        s@.len() == 2,
    ensures
        r == le(s@),
{
    proof {
        lemma_le_unfold(s@);
    }
    (s[0] as u16) + 256 * (s[1] as u16)
}

/// Reads four bytes.
pub fn read_u32(s: &[u8]) -> (r: u32)
    requires
        s@.len() == 4,
    ensures
        r == le(s@),
{
    proof {
        lemma_le_unfold(s@);
    }
    (s[0] as u32) + 256 * (s[1] as u32) + 65536 * (s[2] as u32) + 16777216 * (s[3] as u32)
}

/// Reads eight bytes.
pub fn read_u64(s: &[u8]) -> (r: u64)
    requires
        s@.len() == 8,
    ensures
        r == le(s@),
{
    proof {
        lemma_le_unfold(s@);
        assert(s@.subrange(0, 4) =~= s@.take(4));
        assert(s@.subrange(4, 8) =~= s@.skip(4));
    }
    let low: u32 = read_u32(vstd::slice::slice_subrange(s, 0, 4));
    let high: u32 = read_u32(vstd::slice::slice_subrange(s, 4, 8));
    (low as u64) + 0x1_0000_0000 * (high as u64)
}

} // verus!
