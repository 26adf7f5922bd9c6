//! Bipartitions for the exact Cheeger constant.  The brute-force minimum of
//! the conductance runs over the bipartitions (S, V∖S) with vertex 0 ∈ S,
//! numbered by masks: vertex v ≥ 1 lies in S exactly when bit v − 1 of the
//! mask is set.  The masks below 2^(n−1) number each such S exactly once.

use vstd::prelude::*;
use vstd::arithmetic::power2::{
    lemma2_to64, lemma_pow2_adds, lemma_pow2_pos, lemma_pow2_strictly_increases, lemma_pow2_unfold, pow2,
};
use vstd::arithmetic::div_mod::lemma_div_denominator;
use vstd::bits::lemma_u32_shr_is_div;

verus! {

/// Bit `j` of `m`.
pub open spec fn bit(m: nat, j: nat) -> bool {
    (m / pow2(j)) % 2 == 1
}

/// Whether vertex `v` lies on vertex 0's side S of the bipartition
/// numbered `mask`.
pub open spec fn on_mask_side(mask: u32, v: nat) -> bool {
    v == 0 || bit(mask as nat, (v - 1) as nat)
}

/// The side S of the bipartition numbered `mask`, as membership flags for
/// the vertices 0..n.
pub fn bipartition_from_mask(n: usize, mask: u32) -> (in_s: Vec<bool>)
    requires
        n <= 33,
    ensures
        in_s.len() == n,
        forall|v: int| 0 <= v < n ==> in_s@[v] == on_mask_side(mask, v as nat),
{
    let mut in_s: Vec<bool> = Vec::new();
    let mut v: usize = 0;
    while v < n
        invariant
            0 <= v <= n,
            n <= 33,
            in_s.len() == v,
            forall|u: int| 0 <= u < v ==> in_s@[u] == on_mask_side(mask, u as nat),
        decreases n - v,
    {
        if v == 0 {
            in_s.push(true);
        } else {
            let shift: u32 = (v - 1) as u32;
            let shifted = mask >> shift;
            let b = shifted & 1 == 1;
            proof {
                lemma_u32_shr_is_div(mask, shift);
                assert((shifted & 1 == 1) == (shifted % 2 == 1)) by (bit_vector);
            }
            in_s.push(b);
        }
        v = v + 1;
    }
    in_s
}

proof fn lemma_bit_of_half(m: nat, j: nat)
    ensures
        bit(m / 2, j) == bit(m, j + 1),
{
    lemma_pow2_pos(j);
    lemma_div_denominator(m as int, 2, pow2(j) as int);
    lemma_pow2_adds(1, j);
    lemma2_to64();
}

/// Numbers below 2^k with the same bits 0..k are equal.
proof fn lemma_bits_determine(k: nat, a: nat, b: nat)
    requires
        a < pow2(k),
        b < pow2(k),
        forall|j: nat| j < k ==> bit(a, j) == bit(b, j),
    ensures
        a == b,
    decreases k,
{
    if k == 0 {
        lemma2_to64();
    } else {
        lemma_pow2_unfold(k);
        lemma2_to64();
        assert(bit(a, 0) == bit(b, 0));
        let ha = a / 2;
        let hb = b / 2;
        assert forall|j: nat| j < (k - 1) as nat implies #[trigger] bit(ha, j) == bit(hb, j) by {
            lemma_bit_of_half(a, j);
            lemma_bit_of_half(b, j);
            assert(bit(a, j + 1) == bit(b, j + 1));
        }
        lemma_bits_determine((k - 1) as nat, ha, hb);
    }
}

/// The number below 2^k whose bit j is `bits[j]`.
pub open spec fn from_bits(bits: Seq<bool>) -> nat
    decreases bits.len(),
{
    if bits.len() == 0 {
        0
    } else {
        (if bits[0] {
            1nat
        } else {
            0nat
        }) + 2 * from_bits(bits.drop_first())
    }
}

proof fn lemma_from_bits(bits: Seq<bool>)
    ensures
        from_bits(bits) < pow2(bits.len()),
        forall|j: nat| j < bits.len() ==> bit(from_bits(bits), j) == bits[j as int],
    decreases bits.len(),
{
    if bits.len() == 0 {
        lemma2_to64();
    } else {
        let rest = bits.drop_first();
        lemma_from_bits(rest);
        lemma_pow2_unfold(bits.len());
        let m = from_bits(bits);
        assert(m / 2 == from_bits(rest));
        assert forall|j: nat| j < bits.len() implies bit(m, j) == bits[j as int] by {
            if j == 0 {
                lemma2_to64();
                assert(m / pow2(0) == m);
                assert(m % 2 == (if bits[0] {
                    1nat
                } else {
                    0nat
                }));
            } else {
                lemma_bit_of_half(m, (j - 1) as nat);
                assert(rest[j - 1] == bits[j as int]);
                assert(bit(from_bits(rest), (j - 1) as nat) == rest[j - 1]);
            }
        }
    }
}

/// The masks below 2^(n−1) number the bipartitions with vertex 0 in S
/// exactly once each: every mask puts vertex 0 in S, two masks that put the
/// same vertices of 0..n in S are equal, and every choice of S containing
/// vertex 0 is numbered by some mask.
pub proof fn lemma_masks_number_bipartitions_once(n: nat, m1: u32, m2: u32, side: Seq<bool>)
    requires
        1 <= n <= 33,
        m1 < pow2((n - 1) as nat),
        m2 < pow2((n - 1) as nat),
        side.len() == n,
        side[0],
    ensures
        on_mask_side(m1, 0),
        (forall|v: nat| v < n ==> on_mask_side(m1, v) == on_mask_side(m2, v)) ==> m1 == m2,
        exists|m: u32|
            #![trigger on_mask_side(m, 0)]
            m < pow2((n - 1) as nat) && forall|v: nat|
                v < n ==> #[trigger] on_mask_side(m, v) == side[v as int],
{
    if forall|v: nat| v < n ==> on_mask_side(m1, v) == on_mask_side(m2, v) {
        assert forall|j: nat| j < (n - 1) as nat implies bit(m1 as nat, j) == bit(m2 as nat, j) by {
            assert(on_mask_side(m1, j + 1) == on_mask_side(m2, j + 1));
        }
        lemma_bits_determine((n - 1) as nat, m1 as nat, m2 as nat);
    }
    let bits = side.drop_first();
    lemma_from_bits(bits);
    lemma2_to64();
    if n - 1 < 32 {
        lemma_pow2_strictly_increases((n - 1) as nat, 32);
    }
    let m = from_bits(bits) as u32;
    assert(m as nat == from_bits(bits));
    assert forall|v: nat| v < n implies #[trigger] on_mask_side(m, v) == side[v as int] by {
        if v > 0 {
            assert(bits[v - 1] == side[v as int]);
        }
    }
    assert(on_mask_side(m, 0));
}

} // verus!
