use vstd::prelude::*;
use vstd::arithmetic::power2::pow2;
use crate::error::ConvertError;

verus! {

/// Whether `n` is the `log`-th power of two.
pub open spec fn is_pow2_of(n: int, log: nat) -> bool {
    n == pow2(log)
}

/// Returns `log` with `2^log == n`, or an error if `n` is not a power of two.
pub fn exact_log2(n: u32) -> (r: Result<u8, ConvertError>)
    ensures
        match r {
            Ok(log) => log < 32 && n == pow2(log as nat),
            Err(e) => e == ConvertError::NotPowerOfTwo && forall|k: nat| k < 32 ==> n != pow2(k),
        },
{
    let mut log: u8 = 0;
    let mut power: u32 = 1;
    proof {
        vstd::arithmetic::power2::lemma2_to64();
    }
    while log < 31 && power < n
        invariant
            log <= 31,
            power == pow2(log as nat),
            forall|k: nat| k < log ==> n != pow2(k),
            forall|k: nat| k < log ==> pow2(k) < power,
        decreases 31 - log,
    {
        proof {
            vstd::arithmetic::power2::lemma_pow2_unfold((log + 1) as nat);
            vstd::arithmetic::power2::lemma2_to64();
            assert(pow2(31) == 0x8000_0000);
            vstd::arithmetic::power2::lemma_pow2_strictly_increases(log as nat, 31);
        }
        power = power * 2;
        log = log + 1;
    }
    if power == n {
        Ok(log)
    } else {
        proof {
            assert forall|k: nat| k < 32 implies n != pow2(k) by {
                if k > log {
                    vstd::arithmetic::power2::lemma_pow2_strictly_increases(log as nat, k);
                    if log < 31 {
                        // the loop stopped because power >= n, and power != n
                    } else {
                        vstd::arithmetic::power2::lemma2_to64();
                        assert(k == 32 || k < 32);
                    }
                }
            }
        }
        Err(ConvertError::NotPowerOfTwo)
    }
}

/// Adds a `usize` to a `u32`, returning `None` if the sum does not fit into a `u32`.
pub fn checked_add(lhs: u32, rhs: u64) -> (r: Option<u32>)
    ensures
        r matches Some(v) ==> v == lhs + rhs,
        r is None <==> lhs + rhs > u32::MAX,
{
    if rhs > (u32::MAX - lhs) as u64 {
        None
    } else {
        Some(lhs + rhs as u32)
    }
}

/// Converts a `usize` into a `u64`; a `usize` is at most 64 bits wide.
pub trait FromUsize: Sized {
    fn fromx(n: usize) -> Self;
}

impl FromUsize for u64 {
    fn fromx(n: usize) -> (r: u64)
        ensures
            r == n,
    {
        n as u64
    }
}

/// Converts a `u32` into a `usize`; a `usize` is at least 32 bits wide.
pub trait FromU32: Sized {
    fn fromx(n: u32) -> Self;
}

impl FromU32 for usize {
    fn fromx(n: u32) -> (r: usize)
        ensures
            r == n,
    {
        n as usize
    }
}

} // verus!
