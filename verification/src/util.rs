//! Address-block arithmetic: pure functions over one address block, and the
//! lemmas that relate them to the mathematical range model.

use vstd::prelude::*;
use vstd::arithmetic::div_mod::{
    lemma_fundamental_div_mod, lemma_fundamental_div_mod_converse, lemma_mod_breakdown,
    lemma_mod_multiples_basic, lemma_mod_self_0, lemma_small_mod,
};
use vstd::arithmetic::mul::{lemma_mul_inequality, lemma_mul_strict_inequality};
use vstd::arithmetic::power2::{
    lemma2_to64, lemma2_to64_rest, lemma_pow2_adds, lemma_pow2_pos, lemma_pow2_strictly_increases,
    lemma_pow2_unfold, pow2,
};

use crate::{Bits, Cidr, Family};

verus! {

/// `pow2(e)` grows past every address width here: `pow2(128)` is one more
/// than `u128::MAX`.
pub proof fn lemma_pow2_128()
    ensures
        pow2(128) == 0x100000000000000000000000000000000,
        pow2(32) == 0x100000000,
{
    lemma2_to64();
    lemma2_to64_rest();
    lemma_pow2_adds(64, 64);
}

/// 2 raised to `k`, as a 128-bit value.
pub fn pow2_u128(k: Bits) -> (r: u128)
    requires
        k < 128,
    ensures
        r == pow2(k as nat),
{
    let mut r: u128 = 1;
    let mut i: Bits = 0;
    proof {
        vstd::arithmetic::power::lemma_pow0(2);
    }
    while i < k
        invariant
            i <= k,
            k < 128,
            r == pow2(i as nat),
        decreases k - i,
    {
        proof {
            lemma_pow2_unfold((i + 1) as nat);
            lemma_pow2_128();
            if (i + 1) < 128 {
                lemma_pow2_strictly_increases((i + 1) as nat, 128);
            }
        }
        r = r * 2;
        i = i + 1;
    }
    r
}

/// Total address width (in bits) of the family a block belongs to.
pub fn max_bits(cidr: &Cidr) -> (r: Bits)
    ensures
        r == cidr.family.spec_width(),
{
    cidr.family.width()
}

/// Remaining host bits of a block: total family width minus prefix length.
/// This is the "size" unit used throughout.
pub fn host_length(cidr: &Cidr) -> (r: Bits)
    requires
        cidr.wf(),
    ensures
        r == cidr.spec_host_length(),
{
    max_bits(cidr) - cidr.network_length
}

/// A multiple of `pow2(h1)` that lies strictly below `pow2(h2)` stays below
/// it even after adding one whole `pow2(h1)` step.
pub proof fn lemma_aligned_below(a: int, h1: nat, h2: nat)
    requires
        h1 <= h2,
        0 <= a < pow2(h2),
        a % (pow2(h1) as int) == 0,
    ensures
        a + pow2(h1) <= pow2(h2),
{
    let p1 = pow2(h1) as int;
    let p2 = pow2(h2) as int;
    lemma_pow2_pos(h1);
    lemma_pow2_pos((h2 - h1) as nat);
    lemma_pow2_adds(h1, (h2 - h1) as nat);
    let q = a / p1;
    lemma_fundamental_div_mod(a, p1);
    // a == q * p1, and q * p1 < pow2(h2 - h1) * p1, so q < pow2(h2 - h1)
    let m = pow2((h2 - h1) as nat) as int;
    if q >= m {
        lemma_mul_inequality(m, q, p1);
        assert(m * p1 <= q * p1);
        assert(false);
    }
    lemma_mul_inequality(q + 1, m, p1);
    assert((q + 1) * p1 <= m * p1);
    assert((q + 1) * p1 == q * p1 + p1) by (nonlinear_arith);
}

/// An address aligned to `pow2(h2)` is also aligned to any smaller power
/// `pow2(h1)`.
pub proof fn lemma_aligned_weaken(a: int, h1: nat, h2: nat)
    requires
        h1 <= h2,
        a >= 0,
        a % (pow2(h2) as int) == 0,
    ensures
        a % (pow2(h1) as int) == 0,
{
    let p1 = pow2(h1) as int;
    let p2 = pow2(h2) as int;
    lemma_pow2_pos(h1);
    lemma_pow2_pos(h2);
    lemma_pow2_pos((h2 - h1) as nat);
    lemma_pow2_adds(h1, (h2 - h1) as nat);
    let q = a / p2;
    lemma_fundamental_div_mod(a, p2);
    let m = pow2((h2 - h1) as nat) as int;
    assert(p2 == p1 * m);
    assert(a % p2 == 0);
    assert(a == p2 * q + a % p2);
    assert(a == q * p2) by (nonlinear_arith)
        requires
            a == p2 * q,
    ;
    assert(q * (p1 * m) == (q * m) * p1) by (nonlinear_arith);
    lemma_mod_multiples_basic(q * m, p1);
}

/// A well-formed block ends within its family's address space.
pub proof fn lemma_end_in_space(c: Cidr)
    requires
        c.wf(),
    ensures
        c.end() <= pow2(c.family.spec_width() as nat),
        c.size() >= 1,
{
    lemma_pow2_pos(c.spec_host_length());
    lemma_aligned_below(
        c.address as int,
        c.spec_host_length(),
        c.family.spec_width() as nat,
    );
}

/// Whether `outer` wholly contains `inner`: both the first and the last
/// address of `inner` fall within `outer`'s range.
pub fn cidr_contains(outer: &Cidr, inner: &Cidr) -> (r: bool)
    requires
        outer.wf(),
        inner.wf(),
    ensures
        r == outer.spec_contains(*inner),
{
    proof {
        lemma_end_in_space(*outer);
        lemma_end_in_space(*inner);
    }
    if outer.family != inner.family {
        return false;
    }
    if inner.network_length < outer.network_length {
        // inner is strictly larger than outer, so it cannot fit
        proof {
            lemma_pow2_strictly_increases(
                outer.spec_host_length(),
                inner.spec_host_length(),
            );
        }
        return false;
    }
    if inner.address < outer.address {
        return false;
    }
    let diff = inner.address - outer.address;
    if outer.network_length == 0 {
        // outer covers its whole family's space
        return true;
    }
    let bound = pow2_u128(max_bits(outer) - outer.network_length);
    if diff < bound {
        proof {
            lemma_aligned_weaken(
                outer.address as int,
                inner.spec_host_length(),
                outer.spec_host_length(),
            );
            vstd::arithmetic::div_mod::lemma_sub_mod_noop(
                inner.address as int,
                outer.address as int,
                pow2(inner.spec_host_length()) as int,
            );
            lemma_mod_self_0(pow2(inner.spec_host_length()) as int);
            lemma_pow2_pos(inner.spec_host_length());
            lemma_small_mod(0, pow2(inner.spec_host_length()));
            lemma_aligned_below(
                diff as int,
                inner.spec_host_length(),
                outer.spec_host_length(),
            );
        }
        true
    } else {
        proof {
            lemma_pow2_pos(inner.spec_host_length());
        }
        false
    }
}

/// The lower half of a block: same first address, prefix one bit longer.
pub open spec fn low_half(c: Cidr) -> Cidr {
    Cidr { family: c.family, address: c.address, network_length: (c.network_length + 1) as Bits }
}

/// The upper half of a block: starts in the middle, prefix one bit longer.
pub open spec fn high_half(c: Cidr) -> Cidr {
    Cidr {
        family: c.family,
        address: (c.address + pow2((c.spec_host_length() - 1) as nat)) as u128,
        network_length: (c.network_length + 1) as Bits,
    }
}

/// The two halves of a well-formed block are well-formed and partition the
/// block's range exactly: no gap and no overlap.
pub proof fn lemma_split_parts(c: Cidr)
    requires
        c.wf(),
        c.spec_host_length() >= 1,
    ensures
        low_half(c).wf(),
        high_half(c).wf(),
        low_half(c).spec_host_length() == c.spec_host_length() - 1,
        high_half(c).spec_host_length() == c.spec_host_length() - 1,
        low_half(c).start() == c.start(),
        low_half(c).end() == high_half(c).start(),
        high_half(c).end() == c.end(),
        c.spec_contains(low_half(c)),
        c.spec_contains(high_half(c)),
        low_half(c).disjoint(high_half(c)),
{
    let h = c.spec_host_length();
    let w = c.family.spec_width() as nat;
    lemma_pow2_unfold(h);
    lemma_pow2_pos((h - 1) as nat);
    lemma_pow2_pos(h);
    lemma_end_in_space(c);
    lemma_aligned_weaken(c.address as int, (h - 1) as nat, h);
    // the high half's address stays in the space and stays aligned
    lemma_pow2_strictly_increases((h - 1) as nat, h);
    assert(low_half(c).wf());
    let ha = c.address as int + pow2((h - 1) as nat) as int;
    assert(ha < pow2(w) as int);
    lemma_pow2_128();
    if w < 128 {
        lemma_pow2_strictly_increases(w, 128);
    }
    assert(ha <= u128::MAX);
    lemma_mod_self_0(pow2((h - 1) as nat) as int);
    vstd::arithmetic::div_mod::lemma_add_mod_noop(
        c.address as int,
        pow2((h - 1) as nat) as int,
        pow2((h - 1) as nat) as int,
    );
    lemma_small_mod(0, pow2((h - 1) as nat));
    assert(ha % (pow2((h - 1) as nat) as int) == 0);
    assert(high_half(c).wf());
}

/// A block overlaps every block it contains: containment and disjointness
/// exclude each other.
pub proof fn lemma_contains_not_disjoint(outer: Cidr, inner: Cidr)
    requires
        outer.wf(),
        inner.wf(),
        outer.spec_contains(inner),
    ensures
        !outer.disjoint(inner),
        !inner.disjoint(outer),
{
    lemma_pow2_pos(outer.spec_host_length());
    lemma_pow2_pos(inner.spec_host_length());
}

/// A block properly contained in another is strictly smaller.
pub proof fn lemma_proper_part_smaller(outer: Cidr, inner: Cidr)
    requires
        outer.wf(),
        inner.wf(),
        outer.spec_contains(inner),
        inner != outer,
    ensures
        inner.spec_host_length() < outer.spec_host_length(),
{
    let hi = inner.spec_host_length();
    let ho = outer.spec_host_length();
    if hi > ho {
        lemma_pow2_strictly_increases(ho, hi);
        assert(false);
    }
    if hi == ho {
        assert(inner.address == outer.address);
        assert(inner.network_length == outer.network_length);
        assert(false);
    }
}

/// A block properly contained in a well-formed block lies wholly within
/// exactly one of its two halves: an aligned range never straddles the
/// middle.
pub proof fn lemma_half_dichotomy(outer: Cidr, inner: Cidr)
    requires
        outer.wf(),
        inner.wf(),
        outer.spec_contains(inner),
        inner != outer,
    ensures
        outer.spec_host_length() >= 1,
        low_half(outer).spec_contains(inner) || high_half(outer).spec_contains(inner),
        !(low_half(outer).spec_contains(inner) && high_half(outer).spec_contains(inner)),
{
    lemma_proper_part_smaller(outer, inner);
    let hi = inner.spec_host_length();
    let ho = outer.spec_host_length();
    lemma_split_parts(outer);
    let mid = high_half(outer).start();
    lemma_pow2_pos(hi);
    lemma_pow2_pos((ho - 1) as nat);
    if inner.start() < mid {
        // inner starts in the low half; being aligned it also ends by the
        // middle, which is itself a multiple of the inner block's size
        lemma_aligned_weaken(outer.address as int, hi, ho);
        lemma_aligned_weaken(pow2((ho - 1) as nat) as int, hi, (ho - 1) as nat);
        vstd::arithmetic::div_mod::lemma_add_mod_noop(
            outer.address as int,
            pow2((ho - 1) as nat) as int,
            pow2(hi) as int,
        );
        vstd::arithmetic::div_mod::lemma_sub_mod_noop(
            mid,
            inner.address as int,
            pow2(hi) as int,
        );
        lemma_small_mod(0, pow2(hi));
        let d = mid - inner.start();
        assert(d % (pow2(hi) as int) == 0);
        if d < pow2(hi) {
            lemma_small_mod(d as nat, pow2(hi));
            assert(false);
        }
        assert(low_half(outer).spec_contains(inner));
    } else {
        assert(high_half(outer).spec_contains(inner));
    }
}

/// Split a block into its two equal-sized child blocks, numerically ordered:
/// the lowest-address half first.
pub fn split_cidr(c: &Cidr) -> (r: (Cidr, Cidr))
    requires
        c.wf(),
        c.spec_host_length() >= 1,
    ensures
        r.0 == low_half(*c),
        r.1 == high_half(*c),
{
    proof {
        lemma_split_parts(*c);
    }
    let h = host_length(c);
    let half = pow2_u128(h - 1);
    let low = Cidr { family: c.family, address: c.address, network_length: c.network_length + 1 };
    let high = Cidr {
        family: c.family,
        address: c.address + half,
        network_length: c.network_length + 1,
    };
    (low, high)
}

} // verus!
