//! Token-bucket rate governor: per-process, per-direction buckets, a set of
//! blocked processes, and the delay-mode and policer-mode decisions.
//!
//! Tokens are counted in millionths of a byte and time in microseconds, so
//! that a refill of `elapsed * rate` is exact integer arithmetic.

use std::collections::{HashMap, HashSet};
use vstd::prelude::*;
use vstd::std_specs::hash::group_hash_axioms;
use vstd::std_specs::iter::IteratorSpec;

use crate::clock::now_micros;

verus! {

broadcast use group_hash_axioms;

/// Token units per byte.
pub const TOKEN_SCALE: i128 = 1000000;

/// Lowest token count that delay-mode debt may reach.
pub const DEBT_FLOOR: i128 = -1000000000000000000000000000000;

/// Bandwidth limit configuration for a single process.
#[derive(Clone, Copy, Debug, PartialEq, Eq, Structural)]
pub struct BandwidthLimit {
    /// Download limit in bytes per second (0 = unlimited).
    pub download_bps: u64,
    /// Upload limit in bytes per second (0 = unlimited).
    pub upload_bps: u64,
}

/// Per-direction token bucket.
#[derive(Clone, Copy, Debug)]
pub struct TokenBucket {
    /// Configured rate in bytes per second; 0 means unlimited.
    pub rate_bps: u64,
    /// Current token count, in millionths of a byte.
    pub tokens: i128,
    /// Burst cap: twice the rate, in millionths of a byte.
    pub max_tokens: i128,
    /// Clock reading of the last refill, in microseconds.
    pub last_refill: u64,
}

/// The burst cap of a bucket at `rate` bytes per second, in token units.
pub open spec fn max_tokens_for(rate: u64) -> int {
    2 * rate * TOKEN_SCALE
}

/// Microseconds between two clock readings; a clock that went backwards
/// counts as no time.
pub open spec fn elapsed_between(last: u64, now: u64) -> int {
    if now > last {
        now - last
    } else {
        0
    }
}

/// The later of two clock readings.
pub open spec fn later(last: u64, now: u64) -> u64 {
    if now > last {
        now
    } else {
        last
    }
}

/// Milliseconds to wait for a token count `t` to climb back to zero at
/// `rate` bytes per second, rounded up; 0 when nothing is owed.
pub open spec fn delay_for(t: int, rate: u64) -> u64 {
    if t >= 0 || rate == 0 {
        0
    } else {
        let d = (-t + rate * 1000 - 1) / (rate * 1000);
        if d > u64::MAX {
            u64::MAX
        } else {
            d as u64
        }
    }
}

/// A full bucket at `rate` bytes per second.
pub open spec fn full_bucket(rate: u64) -> TokenBucket {
    TokenBucket {
        rate_bps: rate,
        tokens: max_tokens_for(rate) as i128,
        max_tokens: max_tokens_for(rate) as i128,
        last_refill: 0,
    }
}

/// A bucket moved to a new rate: the burst cap follows the rate and the
/// tokens are clamped down to it, never refilled.
pub open spec fn rescaled(b: TokenBucket, rate: u64) -> TokenBucket {
    TokenBucket {
        rate_bps: rate,
        tokens: if b.tokens > max_tokens_for(rate) {
            max_tokens_for(rate) as i128
        } else {
            b.tokens
        },
        max_tokens: max_tokens_for(rate) as i128,
        last_refill: b.last_refill,
    }
}

/// The buckets of a process after its limit is set: the existing ones
/// rescaled, or full new ones.
pub open spec fn limiter_for(
    buckets: Map<u32, ProcessLimiter>,
    pid: u32,
    limit: BandwidthLimit,
) -> ProcessLimiter {
    if buckets.contains_key(pid) {
        ProcessLimiter {
            download: rescaled(buckets[pid].download, limit.download_bps),
            upload: rescaled(buckets[pid].upload, limit.upload_bps),
        }
    } else {
        ProcessLimiter {
            download: full_bucket(limit.download_bps),
            upload: full_bucket(limit.upload_bps),
        }
    }
}

impl TokenBucket {
    pub open spec fn wf(&self) -> bool {
        &&& self.max_tokens == max_tokens_for(self.rate_bps)
        &&& DEBT_FLOOR <= self.tokens <= self.max_tokens
    }

    /// The token count after refilling for the time elapsed until `now`,
    /// capped at the burst.
    pub open spec fn refilled(&self, now: u64) -> int {
        let t = self.tokens + elapsed_between(self.last_refill, now) * self.rate_bps;
        if t > self.max_tokens {
            self.max_tokens as int
        } else {
            t
        }
    }

    /// Delay mode: the bucket after taking `bytes` at `now`, and the delay in
    /// milliseconds. The deficit is carried forward, down to the floor.
    pub open spec fn after_consume(self, bytes: u64, now: u64) -> (TokenBucket, u64) {
        if self.rate_bps == 0 {
            (self, 0)
        } else {
            let t0 = self.refilled(now) - bytes * TOKEN_SCALE;
            let t = if t0 < DEBT_FLOOR {
                DEBT_FLOOR as int
            } else {
                t0
            };
            (
                TokenBucket { tokens: t as i128, last_refill: later(self.last_refill, now), ..self },
                delay_for(t, self.rate_bps),
            )
        }
    }

    /// Policer mode: the bucket after offering `bytes` at `now`, and whether
    /// they pass. A refused offer takes nothing.
    pub open spec fn after_should_pass(self, bytes: u64, now: u64) -> (TokenBucket, bool) {
        if self.rate_bps == 0 {
            (self, true)
        } else {
            let r = self.refilled(now);
            let last = later(self.last_refill, now);
            if r >= bytes * TOKEN_SCALE {
                (TokenBucket { tokens: (r - bytes * TOKEN_SCALE) as i128, last_refill: last, ..self }, true)
            } else {
                (TokenBucket { tokens: r as i128, last_refill: last, ..self }, false)
            }
        }
    }

    /// A full bucket at `rate` bytes per second.
    pub fn new(rate_bps: u64) -> (r: TokenBucket)
        ensures
            r.wf(),
            r == full_bucket(rate_bps),
    {
        let max_tokens: i128 = 2 * (rate_bps as i128) * TOKEN_SCALE;
        TokenBucket { rate_bps, tokens: max_tokens, max_tokens, last_refill: 0 }
    }

    fn refill(&mut self, now: u64)
        requires
            old(self).wf(),
        ensures
            final(self).wf(),
            final(self).tokens == old(self).refilled(now),
            final(self).last_refill == later(old(self).last_refill, now),
            final(self).rate_bps == old(self).rate_bps,
            final(self).max_tokens == old(self).max_tokens,
    {
        let elapsed: u64 = if now > self.last_refill {
            now - self.last_refill
        } else {
            0
        };
        let e = elapsed as u128;
        let r = self.rate_bps as u128;
        assert(e * r <= u64::MAX as u128 * u64::MAX as u128) by (nonlinear_arith)
            requires
                e <= u64::MAX,
                r <= u64::MAX,
        ;
        let gain: u128 = e * r;
        let room: i128 = self.max_tokens - self.tokens;
        if gain >= room as u128 {
            self.tokens = self.max_tokens;
        } else {
            self.tokens = self.tokens + gain as i128;
        }
        if now > self.last_refill {
            self.last_refill = now;
        }
    }

    /// Delay mode: refill, take `bytes`, and return the delay in
    /// milliseconds before they may be sent. Unlimited buckets return 0 and
    /// are left as they are.
    pub fn consume(&mut self, bytes: u64, now: u64) -> (r: u64)
        requires
            old(self).wf(),
        ensures
            final(self).wf(),
            (*final(self), r) == old(self).after_consume(bytes, now),
    {
        if self.rate_bps == 0 {
            return 0;
        }
        self.refill(now);
        let need: i128 = (bytes as i128) * TOKEN_SCALE;
        let t0: i128 = self.tokens - need;
        self.tokens = if t0 < DEBT_FLOOR {
            DEBT_FLOOR
        } else {
            t0
        };
        if self.tokens >= 0 {
            0
        } else {
            let deficit: i128 = -self.tokens;
            let denom: i128 = (self.rate_bps as i128) * 1000;
            let d: i128 = (deficit + denom - 1) / denom;
            if d > u64::MAX as i128 {
                u64::MAX
            } else {
                d as u64
            }
        }
    }

    /// Policer mode: refill, then take `bytes` if the bucket holds them.
    /// A refused packet takes nothing, so no debt builds up.
    pub fn should_pass(&mut self, bytes: u64, now: u64) -> (r: bool)
        requires
            old(self).wf(),
        ensures
            final(self).wf(),
            (*final(self), r) == old(self).after_should_pass(bytes, now),
    {
        if self.rate_bps == 0 {
            return true;
        }
        self.refill(now);
        let need: i128 = (bytes as i128) * TOKEN_SCALE;
        if self.tokens >= need {
            self.tokens = self.tokens - need;
            true
        } else {
            false
        }
    }

    /// Rescales the burst cap to a new rate, clamping the tokens down to it.
    pub fn update_rate(&mut self, new_rate_bps: u64)
        requires
            old(self).wf(),
        ensures
            final(self).wf(),
            *final(self) == rescaled(*old(self), new_rate_bps),
    {
        self.rate_bps = new_rate_bps;
        self.max_tokens = 2 * (new_rate_bps as i128) * TOKEN_SCALE;
        if self.tokens > self.max_tokens {
            self.tokens = self.max_tokens;
        }
    }
}

} // verus!

verus! {

/// A process's download and upload buckets.
#[derive(Clone, Copy, Debug)]
pub struct ProcessLimiter {
    pub download: TokenBucket,
    pub upload: TokenBucket,
}

impl ProcessLimiter {
    /// The bucket of one direction.
    pub open spec fn bucket(self, is_upload: bool) -> TokenBucket {
        if is_upload {
            self.upload
        } else {
            self.download
        }
    }

    /// The limiter with the bucket of one direction replaced.
    pub open spec fn with_bucket(self, is_upload: bool, b: TokenBucket) -> ProcessLimiter {
        if is_upload {
            ProcessLimiter { upload: b, ..self }
        } else {
            ProcessLimiter { download: b, ..self }
        }
    }
}

/// Delay mode over all buckets: the buckets after `pid` takes `bytes` in
/// one direction at `now`, and the delay. A process without a limit is
/// never delayed.
pub open spec fn consume_outcome(
    buckets: Map<u32, ProcessLimiter>,
    pid: u32,
    bytes: u64,
    is_upload: bool,
    now: u64,
) -> (Map<u32, ProcessLimiter>, u64) {
    if !buckets.contains_key(pid) {
        (buckets, 0)
    } else {
        let l = buckets[pid];
        let (b, d) = l.bucket(is_upload).after_consume(bytes, now);
        (buckets.insert(pid, l.with_bucket(is_upload, b)), d)
    }
}

/// Policer mode over all buckets: blocked processes are refused before any
/// bucket is looked at; processes without a limit pass.
pub open spec fn policer_outcome(
    blocked: Set<u32>,
    buckets: Map<u32, ProcessLimiter>,
    pid: u32,
    bytes: u64,
    is_upload: bool,
    now: u64,
) -> (Map<u32, ProcessLimiter>, bool) {
    if blocked.contains(pid) {
        (buckets, false)
    } else if !buckets.contains_key(pid) {
        (buckets, true)
    } else {
        let l = buckets[pid];
        let (b, pass) = l.bucket(is_upload).after_should_pass(bytes, now);
        (buckets.insert(pid, l.with_bucket(is_upload, b)), pass)
    }
}

/// Rate limits and blocks for all processes.
pub struct RateLimiterManager {
    limiters: HashMap<u32, ProcessLimiter>,
    limits_config: HashMap<u32, BandwidthLimit>,
    blocked_pids: HashSet<u32>,
}

impl RateLimiterManager {
    /// The configured limit of each limited process.
    pub closed spec fn limits(&self) -> Map<u32, BandwidthLimit> {
        self.limits_config@
    }

    /// The blocked processes.
    pub closed spec fn blocked(&self) -> Set<u32> {
        self.blocked_pids@
    }

    /// The buckets of each limited process.
    pub closed spec fn buckets(&self) -> Map<u32, ProcessLimiter> {
        self.limiters@
    }

    pub open spec fn wf(&self) -> bool {
        &&& self.buckets().dom() == self.limits().dom()
        &&& forall|pid: u32| #[trigger]
            self.buckets().contains_key(pid) ==> {
                let l = self.buckets()[pid];
                &&& l.download.wf()
                &&& l.upload.wf()
                &&& l.download.rate_bps == self.limits()[pid].download_bps
                &&& l.upload.rate_bps == self.limits()[pid].upload_bps
            }
    }

    pub fn new() -> (r: RateLimiterManager)
        ensures
            r.wf(),
            r.limits() == Map::<u32, BandwidthLimit>::empty(),
            r.blocked() == Set::<u32>::empty(),
            r.buckets() == Map::<u32, ProcessLimiter>::empty(),
    {
        let r = RateLimiterManager {
            limiters: HashMap::new(),
            limits_config: HashMap::new(),
            blocked_pids: HashSet::new(),
        };
        assert(r.buckets().dom() =~= r.limits().dom());
        r
    }

    /// Sets the limit of a process. A process that already has buckets keeps
    /// them, rescaled to the new rates; a new one gets full buckets.
    pub fn set_limit(&mut self, pid: u32, limit: BandwidthLimit)
        requires
            old(self).wf(),
        ensures
            final(self).wf(),
            final(self).limits() == old(self).limits().insert(pid, limit),
            final(self).blocked() == old(self).blocked(),
            final(self).buckets() == old(self).buckets().insert(
                pid,
                limiter_for(old(self).buckets(), pid, limit),
            ),
    {
        let entry = match self.limiters.get(&pid) {
            Some(l) => {
                let mut e = *l;
                e.download.update_rate(limit.download_bps);
                e.upload.update_rate(limit.upload_bps);
                e
            },
            None => ProcessLimiter {
                download: TokenBucket::new(limit.download_bps),
                upload: TokenBucket::new(limit.upload_bps),
            },
        };
        self.limiters.insert(pid, entry);
        self.limits_config.insert(pid, limit);
        assert(self.buckets().dom() =~= self.limits().dom());
    }

    /// Removes the limit and the buckets of a process.
    pub fn remove_limit(&mut self, pid: u32)
        requires
            old(self).wf(),
        ensures
            final(self).wf(),
            final(self).limits() == old(self).limits().remove(pid),
            final(self).buckets() == old(self).buckets().remove(pid),
            final(self).blocked() == old(self).blocked(),
    {
        self.limiters.remove(&pid);
        self.limits_config.remove(&pid);
        assert(self.buckets().dom() =~= self.limits().dom());
    }

    /// Whether a process has a limit configured.
    pub fn is_limited(&self, pid: u32) -> (r: bool)
        ensures
            r == self.limits().contains_key(pid),
    {
        self.limits_config.contains_key(&pid)
    }

    /// All configured limits.
    pub fn get_all_limits(&self) -> (r: HashMap<u32, BandwidthLimit>)
        ensures
            r@ == self.limits(),
    {
        self.limits_config.clone()
    }

    /// Delay mode at clock reading `now` (microseconds): the delay in
    /// milliseconds before `bytes` may be sent in the given direction.
    pub fn consume_at(&mut self, pid: u32, bytes: u64, is_upload: bool, now: u64) -> (r: u64)
        requires
            old(self).wf(),
        ensures
            final(self).wf(),
            (final(self).buckets(), r) == consume_outcome(
                old(self).buckets(),
                pid,
                bytes,
                is_upload,
                now,
            ),
            final(self).limits() == old(self).limits(),
            final(self).blocked() == old(self).blocked(),
    {
        let mut l = match self.limiters.get(&pid) {
            Some(l) => *l,
            None => return 0,
        };
        let d = if is_upload {
            l.upload.consume(bytes, now)
        } else {
            l.download.consume(bytes, now)
        };
        self.limiters.insert(pid, l);
        assert(self.buckets().dom() =~= self.limits().dom());
        d
    }

    /// Delay mode on the wall clock. What the clock reads is not known, so
    /// the result is that of `consume_at` at some reading.
    pub fn consume(&mut self, pid: u32, bytes: u64, is_upload: bool) -> (r: u64)
        requires
            old(self).wf(),
        ensures
            final(self).wf(),
            exists|now: u64|
                (final(self).buckets(), r) == consume_outcome(
                    old(self).buckets(),
                    pid,
                    bytes,
                    is_upload,
                    now,
                ),
            final(self).limits() == old(self).limits(),
            final(self).blocked() == old(self).blocked(),
            !old(self).limits().contains_key(pid) ==> r == 0,
    {
        let now = now_micros();
        self.consume_at(pid, bytes, is_upload, now)
    }

    /// Policer mode at clock reading `now` (microseconds): whether a packet
    /// of `bytes` passes. Blocked processes are always refused.
    pub fn should_pass_packet_at(&mut self, pid: u32, bytes: u64, is_upload: bool, now: u64) -> (r:
        bool)
        requires
            old(self).wf(),
        ensures
            final(self).wf(),
            (final(self).buckets(), r) == policer_outcome(
                old(self).blocked(),
                old(self).buckets(),
                pid,
                bytes,
                is_upload,
                now,
            ),
            final(self).limits() == old(self).limits(),
            final(self).blocked() == old(self).blocked(),
    {
        if self.blocked_pids.contains(&pid) {
            return false;
        }
        let mut l = match self.limiters.get(&pid) {
            Some(l) => *l,
            None => return true,
        };
        let pass = if is_upload {
            l.upload.should_pass(bytes, now)
        } else {
            l.download.should_pass(bytes, now)
        };
        self.limiters.insert(pid, l);
        assert(self.buckets().dom() =~= self.limits().dom());
        pass
    }

    /// Policer mode on the wall clock.
    pub fn should_pass_packet(&mut self, pid: u32, bytes: u64, is_upload: bool) -> (r: bool)
        requires
            old(self).wf(),
        ensures
            final(self).wf(),
            exists|now: u64|
                (final(self).buckets(), r) == policer_outcome(
                    old(self).blocked(),
                    old(self).buckets(),
                    pid,
                    bytes,
                    is_upload,
                    now,
                ),
            final(self).limits() == old(self).limits(),
            final(self).blocked() == old(self).blocked(),
            old(self).blocked().contains(pid) ==> !r,
            !old(self).blocked().contains(pid) && !old(self).limits().contains_key(pid) ==> r,
    {
        let now = now_micros();
        self.should_pass_packet_at(pid, bytes, is_upload, now)
    }

    /// Blocks all traffic of a process.
    pub fn block_process(&mut self, pid: u32)
        requires
            old(self).wf(),
        ensures
            final(self).wf(),
            final(self).blocked() == old(self).blocked().insert(pid),
            final(self).limits() == old(self).limits(),
            final(self).buckets() == old(self).buckets(),
    {
        self.blocked_pids.insert(pid);
    }

    /// Unblocks a process.
    pub fn unblock_process(&mut self, pid: u32)
        requires
            old(self).wf(),
        ensures
            final(self).wf(),
            final(self).blocked() == old(self).blocked().remove(pid),
            final(self).limits() == old(self).limits(),
            final(self).buckets() == old(self).buckets(),
    {
        self.blocked_pids.remove(&pid);
    }

    /// Whether a process is blocked.
    pub fn is_blocked(&self, pid: u32) -> (r: bool)
        ensures
            r == self.blocked().contains(pid),
    {
        self.blocked_pids.contains(&pid)
    }

    /// All blocked processes, each once, in no particular order.
    pub fn get_blocked_pids(&self) -> (r: Vec<u32>)
        ensures
            r@.to_set() == self.blocked(),
            r@.no_duplicates(),
    {
        let mut out: Vec<u32> = Vec::new();
        let ghost all = self.blocked_pids.iter().remaining().unref();
        for p in it: self.blocked_pids.iter()
            invariant
                it.seq().unref() == all,
                all.to_set() == self.blocked_pids@,
                all.no_duplicates(),
                out@ == all.take(it.index() as int),
        {
            out.push(*p);
            proof {
                assert(all.take(it.index() as int + 1) =~= all.take(it.index() as int).push(*p));
            }
        }
        assert(out@ =~= all);
        out
    }

    /// Drops every limit, bucket and block.
    pub fn clear_all(&mut self)
        ensures
            final(self).wf(),
            final(self).limits() == Map::<u32, BandwidthLimit>::empty(),
            final(self).blocked() == Set::<u32>::empty(),
            final(self).buckets() == Map::<u32, ProcessLimiter>::empty(),
    {
        self.limiters.clear();
        self.limits_config.clear();
        self.blocked_pids.clear();
        assert(self.buckets().dom() =~= self.limits().dom());
    }
}

} // verus!

verus! {

/// A fresh bucket at rate `R > 0` holds its burst of `2R` bytes: taking
/// exactly `2R` in delay mode costs no delay, and taking `2R + 1000` leaves
/// exactly 1000 bytes owed, a delay of `ceil(1_000_000 / R)` milliseconds.
/// Each clause needs only that its byte count fits the `u64` argument.
pub proof fn lemma_fresh_bucket_burst(b: TokenBucket, now: u64)
    requires
        b.wf(),
        b.rate_bps > 0,
        b.tokens == max_tokens_for(b.rate_bps),
    ensures
        b.tokens == 2 * b.rate_bps * TOKEN_SCALE,
        2 * b.rate_bps <= u64::MAX ==> b.after_consume((2 * b.rate_bps) as u64, now).1 == 0,
        2 * b.rate_bps <= u64::MAX ==> b.after_consume((2 * b.rate_bps) as u64, now).0.tokens == 0,
        2 * b.rate_bps + 1000 <= u64::MAX ==> b.after_consume(
            (2 * b.rate_bps + 1000) as u64,
            now,
        ).1 == (1000000 + b.rate_bps - 1) / (b.rate_bps as int),
        2 * b.rate_bps + 1000 <= u64::MAX ==> b.after_consume(
            (2 * b.rate_bps + 1000) as u64,
            now,
        ).1 > 0,
{
    let r = b.rate_bps as int;
    assert((1000 * TOKEN_SCALE + r * 1000 - 1) / (r * 1000) == (1000000 + r - 1) / r) by (nonlinear_arith)
        requires
            r > 0,
    {
        assert(1000 * TOKEN_SCALE + r * 1000 - 1 == 1000 * (1000000 + r - 1) + 999);
        lemma_div_scaled(1000000 + r - 1, r);
    }
    assert((1000000 + r - 1) / r >= 1) by (nonlinear_arith)
        requires
            r > 0,
    ;
    assert((1000000 + r - 1) / r <= 1000000) by (nonlinear_arith)
        requires
            r > 0,
    ;
}

proof fn lemma_div_scaled(a: int, r: int)
    requires
        r > 0,
        a >= 0,
    ensures
        (1000 * a + 999) / (1000 * r) == a / r,
{
    let q = a / r;
    let m = a % r;
    assert(a == q * r + m && 0 <= m < r) by (nonlinear_arith)
        requires
            r > 0,
            q == a / r,
            m == a % r,
    ;
    assert(1000 * a + 999 == q * (1000 * r) + (1000 * m + 999)) by (nonlinear_arith)
        requires
            a == q * r + m,
    ;
    assert(0 <= 1000 * m + 999 < 1000 * r) by (nonlinear_arith)
        requires
            0 <= m < r,
    ;
    assert((1000 * a + 999) / (1000 * r) == q) by (nonlinear_arith)
        requires
            1000 * a + 999 == q * (1000 * r) + (1000 * m + 999),
            0 <= 1000 * m + 999 < 1000 * r,
            r > 0,
    ;
}

/// Offering zero bytes in policer mode takes nothing beyond the refill, and
/// offering zero bytes again at the same instant gets the same answer; a
/// bucket not in debt always lets zero bytes pass.
pub proof fn lemma_zero_offer_consistent(b: TokenBucket, now: u64)
    requires
        b.wf(),
    ensures
        b.rate_bps > 0 ==> b.after_should_pass(0, now).0.tokens == b.refilled(now),
        b.after_should_pass(0, now).0.after_should_pass(0, now).1 == b.after_should_pass(0, now).1,
        b.tokens >= 0 ==> b.after_should_pass(0, now).1,
{
}

/// A packet refused by the policer leaves the refilled token count as it
/// was: no debt is carried, and a following packet at the same instant is
/// measured against that same count.
pub proof fn lemma_policer_non_accrual(b: TokenBucket, refused: u64, next: u64, now: u64)
    requires
        b.wf(),
        !b.after_should_pass(refused, now).1,
    ensures
        b.rate_bps > 0,
        b.after_should_pass(refused, now).0.tokens == b.refilled(now),
        b.after_should_pass(refused, now).0.after_should_pass(next, now).1 == (b.refilled(now)
            >= next * TOKEN_SCALE),
{
}

/// A blocked process is refused by the policer whatever its limit, including
/// none, in both directions, and no bucket is touched.
pub proof fn lemma_block_precedence(
    blocked: Set<u32>,
    buckets: Map<u32, ProcessLimiter>,
    pid: u32,
    bytes: u64,
    now: u64,
)
    requires
        blocked.contains(pid),
    ensures
        policer_outcome(blocked, buckets, pid, bytes, false, now) == (buckets, false),
        policer_outcome(blocked, buckets, pid, bytes, true, now) == (buckets, false),
{
}

/// After `clear_all` no process is limited or blocked: the limits that
/// `get_all_limits` returns and the pids that `get_blocked_pids` returns
/// are empty, and `is_limited` and `is_blocked` are false for every pid.
pub proof fn lemma_profile_clear(m: RateLimiterManager, pid: u32)
    requires
        m.limits() == Map::<u32, BandwidthLimit>::empty(),
        m.blocked() == Set::<u32>::empty(),
    ensures
        m.limits().dom().len() == 0,
        m.blocked().len() == 0,
        !m.limits().contains_key(pid),
        !m.blocked().contains(pid),
{
}

/// Burst after a new limit: a process with no buckets that is given a limit
/// of `R > 0` bytes per second in a direction can, through `consume`, take
/// its whole burst of `2R` bytes at once without delay; taking `2R + 1000`
/// instead costs `ceil(1_000_000 / R)` milliseconds.
pub proof fn lemma_fresh_limit_burst(
    buckets: Map<u32, ProcessLimiter>,
    pid: u32,
    limit: BandwidthLimit,
    is_upload: bool,
    now: u64,
)
    requires
        !buckets.contains_key(pid),
        (if is_upload {
            limit.upload_bps
        } else {
            limit.download_bps
        }) > 0,
    ensures
        ({
            let after = buckets.insert(pid, limiter_for(buckets, pid, limit));
            let r = if is_upload {
                limit.upload_bps
            } else {
                limit.download_bps
            };
            &&& 2 * r <= u64::MAX ==> consume_outcome(after, pid, (2 * r) as u64, is_upload, now).1
                == 0
            &&& 2 * r + 1000 <= u64::MAX ==> consume_outcome(
                after,
                pid,
                (2 * r + 1000) as u64,
                is_upload,
                now,
            ).1 == (1000000 + r - 1) / (r as int)
        }),
{
    let after = buckets.insert(pid, limiter_for(buckets, pid, limit));
    let r = if is_upload {
        limit.upload_bps
    } else {
        limit.download_bps
    };
    let b = after[pid].bucket(is_upload);
    assert(b == full_bucket(r));
    lemma_fresh_bucket_burst(b, now);
}

} // verus!
