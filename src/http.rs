use vstd::prelude::*;

verus! {

/// The HTTP statuses that are worth a retry: 429, 500, 502, 503 and 504.
pub open spec fn retryable_status(status: u16) -> bool {
    status == 429 || status == 500 || status == 502 || status == 503 || status == 504
}

pub fn is_retryable_status(status: u16) -> (r: bool)
    ensures
        r == retryable_status(status),
{
    status == 429 || status == 500 || status == 502 || status == 503 || status == 504
}

/// A 2xx status.
pub open spec fn success_status(status: u16) -> bool {
    200 <= status && status <= 299
}

pub fn is_success_status(status: u16) -> (r: bool)
    ensures
        r == success_status(status),
{
    200 <= status && status <= 299
}

/// `2^k` for the attempt `k`, with the exponent capped at 8.
pub open spec fn backoff_factor(attempt: u32) -> nat {
    if attempt >= 8 {
        256
    } else {
        vstd::arithmetic::power2::pow2(attempt as nat)
    }
}

/// The delay before the retry that follows attempt `attempt` (counted from
/// 0): `base_ms * min(2^attempt, 2^8)` milliseconds, saturating at
/// `u64::MAX`.
pub open spec fn backoff_ms(base_ms: u64, attempt: u32) -> u64 {
    let d = base_ms * backoff_factor(attempt);
    if d > u64::MAX {
        u64::MAX
    } else {
        d as u64
    }
}

pub fn retry_delay(base_ms: u64, attempt: u32) -> (r: u64)
    ensures
        r == backoff_ms(base_ms, attempt),
{
    let k: u32 = if attempt < 8 {
        attempt
    } else {
        8
    };
    let mut multiplier: u64 = 1;
    let mut j: u32 = 0;
    proof {
        vstd::arithmetic::power2::lemma2_to64();
    }
    while j < k
        invariant
            j <= k <= 8,
            multiplier == vstd::arithmetic::power2::pow2(j as nat),
        decreases k - j,
    {
        proof {
            vstd::arithmetic::power2::lemma_pow2_unfold((j + 1) as nat);
            vstd::arithmetic::power2::lemma2_to64();
        }
        multiplier = multiplier * 2;
        j = j + 1;
    }
    proof {
        vstd::arithmetic::power2::lemma2_to64();
    }
    match base_ms.checked_mul(multiplier) {
        Some(d) => d,
        None => u64::MAX,
    }
}

} // verus!
