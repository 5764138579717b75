use vstd::prelude::*;

verus! {

/// Per-key state of the continuous-refill rate counter.
///
/// Token amounts are held in thousandths of a token ("millitokens"):
/// a rate of `r` tokens per second is exactly `r` millitokens per
/// millisecond, so refill over millisecond timestamps is exact integer
/// arithmetic and admission and retry-after computations need no rounding
/// beyond the final ceiling division.
#[derive(Debug)]
pub struct TokenBucket {
    /// Current token count, in thousandths of a token.
    pub millitokens: u64,
    /// Timestamp of the last update, in milliseconds.
    pub last_ms: u64,
}

/// Effective refill rate in millitokens per millisecond. A configured
/// rate of zero is treated as the slowest non-zero rate rather than as an
/// infinite deny.
pub open spec fn rate_of(limit_per_second: u32) -> int {
    if limit_per_second == 0 {
        1
    } else {
        limit_per_second as int
    }
}

/// Milliseconds since the last update, clamped to zero if the clock
/// regressed.
pub open spec fn elapsed_of(last_ms: u64, now_ms: u64) -> int {
    if now_ms >= last_ms {
        now_ms - last_ms
    } else {
        0
    }
}

/// The maximum token count, in millitokens.
pub open spec fn cap_of(burst: u32) -> int {
    burst * 1000
}

/// The token count after refilling for the elapsed time, clamped to the
/// burst capacity.
pub open spec fn filled_of(b: TokenBucket, limit_per_second: u32, burst: u32, now_ms: u64) -> int {
    let f = b.millitokens + elapsed_of(b.last_ms, now_ms) * rate_of(limit_per_second);
    if f <= cap_of(burst) {
        f
    } else {
        cap_of(burst)
    }
}

/// Whether a `consume` call on `b` admits the request: at least one whole
/// token is available after refill.
pub open spec fn bucket_allows(b: TokenBucket, limit_per_second: u32, burst: u32, now_ms: u64) -> bool {
    filled_of(b, limit_per_second, burst, now_ms) >= 1000
}

pub open spec fn ceil_div(a: int, b: int) -> int {
    (a + b - 1) / b
}

/// The retry-after answer of a `consume` call: none when admitted, else
/// the minimum wait in milliseconds that guarantees a whole token.
pub open spec fn bucket_retry(b: TokenBucket, limit_per_second: u32, burst: u32, now_ms: u64) -> Option<u32> {
    if bucket_allows(b, limit_per_second, burst, now_ms) {
        None
    } else {
        Some(ceil_div(1000 - filled_of(b, limit_per_second, burst, now_ms), rate_of(limit_per_second)) as u32)
    }
}

/// The bucket state after a `consume` call: refilled, minus one token if
/// admitted, with the update timestamp advanced unconditionally.
pub open spec fn bucket_after(b: TokenBucket, limit_per_second: u32, burst: u32, now_ms: u64) -> TokenBucket {
    let f = filled_of(b, limit_per_second, burst, now_ms);
    TokenBucket {
        millitokens: (if f >= 1000 {
            f - 1000
        } else {
            f
        }) as u64,
        last_ms: now_ms,
    }
}

/// A bucket as first created: a full burst allowance.
pub open spec fn fresh_bucket(burst: u32, now_ms: u64) -> TokenBucket {
    TokenBucket { millitokens: (burst * 1000) as u64, last_ms: now_ms }
}

impl TokenBucket {
    /// A new bucket holding its full burst allowance.
    pub fn new(burst: u32, now_ms: u64) -> (r: TokenBucket)
        ensures
            r == fresh_bucket(burst, now_ms),
    {
        TokenBucket { millitokens: burst as u64 * 1000, last_ms: now_ms }
    }

    /// One admission test: refill for the time elapsed since the last
    /// update, clamp to the burst capacity, then admit if a whole token is
    /// available (consuming it) or deny with the minimum wait after which
    /// a retry would be admitted.
    pub fn consume(&mut self, limit_per_second: u32, burst: u32, now_ms: u64) -> (r: (bool, Option<u32>))
        ensures
            *final(self) == bucket_after(*old(self), limit_per_second, burst, now_ms),
            r.0 == bucket_allows(*old(self), limit_per_second, burst, now_ms),
            r.1 == bucket_retry(*old(self), limit_per_second, burst, now_ms),
    {
        let rate: u64 = if limit_per_second == 0 {
            1
        } else {
            limit_per_second as u64
        };
        let elapsed: u64 = if now_ms >= self.last_ms {
            now_ms - self.last_ms
        } else {
            0
        };
        let cap: u64 = burst as u64 * 1000;
        let filled: u64;
        if self.millitokens >= cap {
            proof {
                assert(elapsed_of(self.last_ms, now_ms) * rate_of(limit_per_second) >= 0) by (nonlinear_arith)
                    requires
                        elapsed_of(self.last_ms, now_ms) >= 0,
                        rate_of(limit_per_second) >= 1,
                ;
            }
            filled = cap;
        } else {
            let deficit: u64 = cap - self.millitokens;
            let q: u64 = deficit / rate;
            if elapsed > q {
                proof {
                    assert(elapsed * rate > deficit) by (nonlinear_arith)
                        requires
                            rate >= 1,
                            elapsed > deficit / rate,
                            deficit >= 0,
                    ;
                }
                filled = cap;
            } else {
                proof {
                    assert(elapsed * rate <= deficit) by (nonlinear_arith)
                        requires
                            rate >= 1,
                            elapsed <= deficit / rate,
                            deficit >= 0,
                    ;
                }
                filled = self.millitokens + elapsed * rate;
            }
        }
        self.last_ms = now_ms;
        if filled >= 1000 {
            self.millitokens = filled - 1000;
            (true, None)
        } else {
            self.millitokens = filled;
            let missing: u64 = 1000 - filled;
            let wait: u64 = (missing + rate - 1) / rate;
            proof {
                assert((missing as int + rate as int - 1) / (rate as int) <= missing as int) by (nonlinear_arith)
                    requires
                        rate >= 1,
                        1 <= missing <= 1000,
                ;
            }
            (false, Some(wait as u32))
        }
    }

    /// The current token count, in thousandths of a token.
    pub fn remaining_millitokens(&self) -> (r: u64)
        ensures
            r == self.millitokens,
    {
        self.millitokens
    }
}

/// The bucket state after `n` consume calls at the same instant `t` on a
/// bucket freshly created at `t`.
pub open spec fn drained_n(limit_per_second: u32, burst: u32, t: u64, n: nat) -> TokenBucket
    decreases n,
{
    if n == 0 {
        fresh_bucket(burst, t)
    } else {
        bucket_after(drained_n(limit_per_second, burst, t, (n - 1) as nat), limit_per_second, burst, t)
    }
}

/// A freshly created bucket with burst capacity `burst` admits exactly
/// `burst` consecutive requests at one instant: after `n < burst` calls
/// the next call is still admitted, and after `burst` calls the next call
/// is denied.
pub proof fn lemma_fresh_bucket_admits_burst(limit_per_second: u32, burst: u32, t: u64, n: nat)
    requires
        limit_per_second > 0,
        n <= burst,
    ensures
        drained_n(limit_per_second, burst, t, n).millitokens == (burst - n) * 1000,
        drained_n(limit_per_second, burst, t, n).last_ms == t,
        n < burst ==> bucket_allows(drained_n(limit_per_second, burst, t, n), limit_per_second, burst, t),
        n == burst ==> !bucket_allows(drained_n(limit_per_second, burst, t, n), limit_per_second, burst, t),
    decreases n,
{
    if n == 0 {
    } else {
        lemma_fresh_bucket_admits_burst(limit_per_second, burst, t, (n - 1) as nat);
    }
}

/// After a denial at time `t` that computed `retry_after_ms == tr`,
/// retrying exactly `tr` milliseconds later is admitted, while retrying a
/// millisecond earlier is still denied. Needs `burst >= 1`: with no burst
/// allowance the bucket can never hold a whole token.
pub proof fn lemma_retry_after_is_exact(b: TokenBucket, limit_per_second: u32, burst: u32, t: u64, tr: u32)
    requires
        burst >= 1,
        !bucket_allows(b, limit_per_second, burst, t),
        bucket_retry(b, limit_per_second, burst, t) == Some(tr),
        t + tr <= u64::MAX,
    ensures
        1 <= tr <= 1000,
        bucket_allows(bucket_after(b, limit_per_second, burst, t), limit_per_second, burst, (t + tr) as u64),
        !bucket_allows(bucket_after(b, limit_per_second, burst, t), limit_per_second, burst, (t + tr - 1) as u64),
{
    let r = rate_of(limit_per_second);
    let f0 = filled_of(b, limit_per_second, burst, t);
    let m = 1000 - f0;
    assert(elapsed_of(b.last_ms, t) * r >= 0) by (nonlinear_arith)
        requires
            elapsed_of(b.last_ms, t) >= 0,
            r >= 1,
    ;
    assert(0 <= f0 < 1000);
    let c = ceil_div(m, r);
    assert(1 <= c <= m) by (nonlinear_arith)
        requires
            r >= 1,
            1 <= m <= 1000,
            c == (m + r - 1) / r,
    ;
    assert(tr == c);
    assert(c * r >= m && (c - 1) * r <= m - 1) by (nonlinear_arith)
        requires
            r >= 1,
            m >= 1,
            c == (m + r - 1) / r,
    ;
    let b1 = bucket_after(b, limit_per_second, burst, t);
    assert(b1.millitokens == f0 && b1.last_ms == t);
    assert(elapsed_of(t, (t + tr) as u64) == tr);
    assert(f0 + c * r >= 1000);
    assert(cap_of(burst) >= 1000) by (nonlinear_arith)
        requires
            burst >= 1,
    ;
    assert(elapsed_of(t, (t + tr - 1) as u64) == tr - 1);
    assert(f0 + (c - 1) * r <= 999);
}

/// With a configured rate of zero the bucket refills at the slowest
/// non-zero rate, and with no burst allowance it can never accumulate a
/// whole token: every call denies and leaves the bucket empty, no matter
/// how much time passes.
pub proof fn lemma_zero_rate_without_burst_denies(b: TokenBucket, now_ms: u64)
    requires
        b.millitokens == 0,
    ensures
        !bucket_allows(b, 0, 0, now_ms),
        bucket_after(b, 0, 0, now_ms).millitokens == 0,
        bucket_retry(b, 0, 0, now_ms) == Some(1000u32),
{
    assert(cap_of(0) == 0);
    assert(filled_of(b, 0, 0, now_ms) == 0);
}

} // verus!
