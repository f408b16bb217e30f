//! Exact representability of 64-bit integers in IEEE-754 binary32.
//!
//! A binary32 value carries 24 significand bits, so an unsigned 64-bit
//! integer survives a round trip through binary32 exactly when it can be
//! written as `m * 2^e` with `m < 2^24` (every such product up to
//! `2^64` lies well inside the binary32 exponent range).  The search
//! below finds the smallest integer for which that fails.

use vstd::arithmetic::mul::{lemma_mul_inequality, lemma_mul_is_associative};
use vstd::arithmetic::power2::{lemma_pow2_adds, lemma_pow2_pos, pow2};
use vstd::prelude::*;

verus! {

/// The number of integers expressible in 24 bits: one more than the
/// largest binary32 significand.
pub const F32_MANTISSA_SPAN: u64 = 0x100_0000;

/// Whether the integer is exactly representable as a binary32 value:
/// it is a significand of at most 24 bits times a power of two.
pub open spec fn repr_f32(n: u64) -> bool {
    exists|m: nat, e: nat| m < F32_MANTISSA_SPAN && n == #[trigger] (m * pow2(e))
}

/// An odd integer that needs more than 24 bits has no binary32
/// representation: a power-of-two factor would make it even, and a bare
/// significand is too small.
proof fn lemma_odd_wide_not_repr(n: u64)
    requires
        n % 2 == 1,
        n >= F32_MANTISSA_SPAN,
    ensures
        !repr_f32(n),
{
    if repr_f32(n) {
        let (m, e): (nat, nat) = choose|m: nat, e: nat|
            m < F32_MANTISSA_SPAN && n == #[trigger] (m * pow2(e));
        if e == 0 {
            assert(pow2(0) == 1) by {
                vstd::arithmetic::power2::lemma2_to64();
            }
            assert(n == m);
        } else {
            lemma_pow2_adds(1, (e - 1) as nat);
            assert(pow2(1) == 2) by {
                vstd::arithmetic::power2::lemma2_to64();
            }
            assert(pow2(e) == 2 * pow2((e - 1) as nat));
            lemma_mul_is_associative(m as int, 2, pow2((e - 1) as nat) as int);
            assert(n == 2 * (m * pow2((e - 1) as nat))) by {
                lemma_mul_is_associative(2, m as int, pow2((e - 1) as nat) as int);
            }
            assert(n % 2 == 0);
        }
    }
}

/// Decide whether the integer is exactly representable in binary32, by
/// stripping its factors of two and measuring what remains.
pub fn is_f32_exact(n: u64) -> (r: bool)
    ensures
        r == repr_f32(n),
{
    let mut m = n;
    let ghost mut k: nat = 0;
    proof {
        assert(pow2(0) == 1) by {
            vstd::arithmetic::power2::lemma2_to64();
        }
    }
    while m % 2 == 0 && m != 0
        invariant
            n == m * pow2(k),
        decreases m,
    {
        proof {
            lemma_pow2_adds(k, 1);
            assert(pow2(1) == 2) by {
                vstd::arithmetic::power2::lemma2_to64();
            }
            lemma_pow2_pos(k);
            assert((m / 2) * pow2(k + 1) == ((m / 2) * 2) * pow2(k)) by {
                lemma_mul_is_associative(m as int / 2, 2, pow2(k) as int);
            }
            assert(((m / 2) * 2) == m);
        }
        m = m / 2;
        proof {
            k = k + 1;
        }
    }
    proof {
        lemma_pow2_pos(k);
    }
    if m < F32_MANTISSA_SPAN {
        proof {
            assert(m < F32_MANTISSA_SPAN && n == (m as nat) * pow2(k));
        }
        true
    } else {
        proof {
            assert(m % 2 == 1);
            if repr_f32(n) {
                let (m2, e2): (nat, nat) = choose|m2: nat, e2: nat|
                    m2 < F32_MANTISSA_SPAN && n == #[trigger] (m2 * pow2(e2));
                if e2 >= k {
                    // Cancel pow2(k): m == m2 * pow2(e2 - k), so the odd
                    // remainder m would be even or too small.
                    lemma_pow2_adds((e2 - k) as nat, k);
                    assert(m2 * pow2(e2) == (m2 * pow2((e2 - k) as nat)) * pow2(k)) by {
                        lemma_mul_is_associative(
                            m2 as int,
                            pow2((e2 - k) as nat) as int,
                            pow2(k) as int,
                        );
                    }
                    lemma_pow2_pos(k);
                    assert(m as nat == m2 * pow2((e2 - k) as nat)) by (nonlinear_arith)
                        requires
                            m * pow2(k) == (m2 * pow2((e2 - k) as nat)) * pow2(k),
                            pow2(k) > 0,
                    ;
                    if e2 == k {
                        assert(pow2(0) == 1) by {
                            vstd::arithmetic::power2::lemma2_to64();
                        }
                        assert((e2 - k) as nat == 0);
                        assert(pow2((e2 - k) as nat) == 1);
                        assert(m as nat == m2 * 1);
                        assert(m as nat == m2);
                    } else {
                        lemma_pow2_adds(1, (e2 - k - 1) as nat);
                        assert(pow2(1) == 2) by {
                            vstd::arithmetic::power2::lemma2_to64();
                        }
                        assert(m as nat == m2 * (2 * pow2((e2 - k - 1) as nat)));
                        assert(m as nat == 2 * (m2 * pow2((e2 - k - 1) as nat))) by {
                            lemma_mul_is_associative(
                                m2 as int,
                                2,
                                pow2((e2 - k - 1) as nat) as int,
                            );
                            lemma_mul_is_associative(
                                2,
                                m2 as int,
                                pow2((e2 - k - 1) as nat) as int,
                            );
                        }
                        assert(m % 2 == 0);
                    }
                } else {
                    // Cancel pow2(e2): m2 == m * pow2(k - e2) >= m, which
                    // exceeds the significand span.
                    lemma_pow2_adds((k - e2) as nat, e2);
                    assert(m * pow2(k) == (m * pow2((k - e2) as nat)) * pow2(e2)) by {
                        lemma_mul_is_associative(
                            m as int,
                            pow2((k - e2) as nat) as int,
                            pow2(e2) as int,
                        );
                    }
                    lemma_pow2_pos(e2);
                    assert(m2 == m * pow2((k - e2) as nat)) by (nonlinear_arith)
                        requires
                            m2 * pow2(e2) == (m * pow2((k - e2) as nat)) * pow2(e2),
                            pow2(e2) > 0,
                    ;
                    lemma_pow2_pos((k - e2) as nat);
                    lemma_mul_inequality(1, pow2((k - e2) as nat) as int, m as int);
                    assert(m2 >= m as nat) by {
                        vstd::arithmetic::mul::lemma_mul_is_commutative(
                            m as int,
                            pow2((k - e2) as nat) as int,
                        );
                    }
                }
            }
        }
        false
    }
}

/// The smallest unsigned 64-bit integer that binary32 cannot represent
/// exactly.  Every integer below the result survives the binary32 round
/// trip; the result itself does not.
pub fn find_smallest_unrepresentable_n() -> (r: u64)
    ensures
        !repr_f32(r),
        forall|k: u64| k < r ==> repr_f32(k),
{
    proof {
        lemma_odd_wide_not_repr(0x100_0001u64);
    }
    let mut n: u64 = 0;
    while is_f32_exact(n)
        invariant
            n <= 0x100_0001,
            !repr_f32(0x100_0001u64),
            forall|k: u64| k < n ==> repr_f32(k),
        decreases 0x100_0001 - n,
    {
        n = n + 1;
    }
    n
}

} // verus!
