//! The token bucket that paces a stream of packets to a byte rate.
//!
//! Tokens are counted in thousand-millionths of a byte, so that a refill over
//! a whole number of nanoseconds at a whole number of bytes per second is
//! exact: `elapsed_nanos * rate` of them. A bucket holds at most one second's
//! worth (`rate` bytes); a packet that finds too few tokens still goes, the
//! count goes below zero, and the caller is told how long to wait, at most
//! 100 ms so that TCP does not time out.
//!
//! Time is given by the caller as nanoseconds read from a monotonic clock
//! since an origin of its choosing; the bucket remembers when it was last
//! refilled.

use vstd::prelude::*;

verus! {

/// Nanoseconds in one second; also the number of token units in one byte.
pub const NANOS_PER_SECOND: u64 = 1_000_000_000;

/// The longest wait a packet is told to take, in nanoseconds (100 ms).
pub const MAX_WAIT_NANOS: u64 = 100_000_000;

/// The lowest the token count goes, -2^100 units: a fixed-width count
/// needs a bound, and this one lies far below anything traffic reaches. It
/// takes over 10^15 packets of a mebibyte each with no refill in between to
/// get there, and every packet in that much debt is told to wait 100 ms.
pub const TOKEN_FLOOR: i128 = -1267650600228229401496703205376;

/// Token units in a bucket of `rate` bytes per second when it is full.
pub open spec fn capacity(rate: nat) -> int {
    rate * NANOS_PER_SECOND
}

/// Token units that a packet of `size` bytes takes.
pub open spec fn cost_of(size: nat) -> int {
    size * NANOS_PER_SECOND
}

/// The token count after `elapsed` nanoseconds of refilling at `rate`,
/// never above a full bucket.
pub open spec fn refilled(tokens: int, rate: nat, elapsed: nat) -> int {
    if tokens + elapsed * rate > capacity(rate) {
        capacity(rate)
    } else {
        tokens + elapsed * rate
    }
}

/// The nanoseconds a bucket of `rate > 0` bytes per second takes to earn
/// `short > 0` token units, rounded up: so a packet short of tokens always
/// waits.
pub open spec fn wait_for_shortfall(short: int, rate: nat) -> nat {
    ((short + rate - 1) / (rate as int)) as nat
}

/// The nanoseconds from `last` to `now`, none if the clock reads earlier
/// than `last`.
pub open spec fn time_since(last: nat, now: nat) -> nat {
    if now >= last {
        (now - last) as nat
    } else {
        0
    }
}

/// A packet of `size` bytes arriving `elapsed` nanoseconds after the last one,
/// at a bucket of `rate > 0` bytes per second holding `tokens`: the token
/// count after it, and the nanoseconds it is told to wait.
pub open spec fn settle(tokens: int, rate: nat, elapsed: nat, size: nat) -> (int, nat) {
    let t = refilled(tokens, rate, elapsed);
    let c = cost_of(size);
    if t >= c {
        (t - c, 0)
    } else {
        let left = if t - c < TOKEN_FLOOR {
            TOKEN_FLOOR as int
        } else {
            t - c
        };
        let wait = if wait_for_shortfall(c - t, rate) > MAX_WAIT_NANOS {
            MAX_WAIT_NANOS as nat
        } else {
            wait_for_shortfall(c - t, rate)
        };
        (left, wait)
    }
}

/// What a packet of `size` bytes arriving at time `now` does to a bucket
/// whose state (tokens, rate, time of last refill) goes from `before` to
/// `after`, with `wait` nanoseconds to wait: nothing when the rate is 0 (no
/// limit); else the bucket is refilled for the time since its last refill,
/// pays for the packet as `settle` says, and records `now`.
pub open spec fn consumed(
    before: (int, nat, nat),
    after: (int, nat, nat),
    now: nat,
    size: nat,
    wait: nat,
) -> bool {
    if before.1 == 0 {
        after == before && wait == 0
    } else {
        let s = settle(before.0, before.1, time_since(before.2, now), size);
        after == (s.0, before.1, now) && wait == s.1
    }
}

/// A token bucket for one direction of traffic.
#[derive(Clone, Copy)]
pub struct TokenBucket {
    tokens: i128,
    rate: u64,
    last_refill: u128,
}

impl View for TokenBucket {
    /// The token count, the rate in bytes per second, and the time of the
    /// last refill in nanoseconds.
    type V = (int, nat, nat);

    closed spec fn view(&self) -> (int, nat, nat) {
        (self.tokens as int, self.rate as nat, self.last_refill as nat)
    }
}

impl TokenBucket {
    /// The bucket's invariant: its count lies between the floor and a full
    /// bucket.
    #[verifier::type_invariant]
    closed spec fn wf(&self) -> bool {
        TOKEN_FLOOR <= self.tokens <= capacity(self.rate as nat)
    }

    /// A full bucket for `rate` bytes per second, made at time `now_nanos`;
    /// rate 0 means no limit.
    pub fn new(rate: u64, now_nanos: u128) -> (b: Self)
        ensures
            b@ == (capacity(rate as nat), rate as nat, now_nanos as nat),
    {
        TokenBucket { tokens: rate as i128 * 1_000_000_000, rate, last_refill: now_nanos }
    }

    /// The rate in bytes per second.
    pub fn rate(&self) -> (r: u64)
        ensures
            r == self@.1,
    {
        self.rate
    }

    /// Refills the bucket for `elapsed_nanos` and takes a packet of
    /// `packet_size` bytes from it; returns the nanoseconds to wait before
    /// the packet goes. A bucket without limit is left as it is.
    pub fn refill_and_take(&mut self, elapsed_nanos: u128, packet_size: usize) -> (wait: u64)
        ensures
            final(self)@.1 == old(self)@.1,
            final(self)@.2 == old(self)@.2,
            final(self)@.0 <= capacity(final(self)@.1),
            old(self)@.1 == 0 ==> final(self)@ == old(self)@ && wait == 0,
            old(self)@.1 > 0 ==> (final(self)@.0, wait as nat) == settle(
                old(self)@.0,
                old(self)@.1,
                elapsed_nanos as nat,
                packet_size as nat,
            ),
    {
        proof {
            use_type_invariant(&*self);
        }
        if self.rate == 0 {
            return 0;
        }
        let ghost t0 = self.tokens as int;
        let ghost r = self.rate as nat;
        let cap: i128 = self.rate as i128 * 1_000_000_000;
        if self.tokens < cap {
            let gap: u128 = (cap - self.tokens) as u128;
            match elapsed_nanos.checked_mul(self.rate as u128) {
                Some(added) => {
                    if added >= gap {
                        self.tokens = cap;
                    } else {
                        self.tokens = self.tokens + added as i128;
                    }
                },
                None => {
                    self.tokens = cap;
                },
            }
        }
        assert(self.tokens == refilled(t0, r, elapsed_nanos as nat));
        let cost: i128 = packet_size as i128 * 1_000_000_000;
        if self.tokens >= cost {
            self.tokens = self.tokens - cost;
            0
        } else {
            let shortage: i128 = cost - self.tokens;
            let left: i128 = self.tokens - cost;
            self.tokens = if left < TOKEN_FLOOR {
                TOKEN_FLOOR
            } else {
                left
            };
            let rate: i128 = self.rate as i128;
            let wait: i128 = (shortage + rate - 1) / rate;
            if wait > MAX_WAIT_NANOS as i128 {
                MAX_WAIT_NANOS
            } else {
                wait as u64
            }
        }
    }

    /// Takes a packet of `packet_size` bytes arriving at time `now_nanos`
    /// from the bucket, refilling it first for the time since its last
    /// refill; returns the nanoseconds to wait before the packet goes. A
    /// bucket without limit is left as it is, its last refill time included.
    pub fn consume(&mut self, now_nanos: u128, packet_size: usize) -> (wait: u64)
        ensures
            final(self)@.0 <= capacity(final(self)@.1),
            consumed(old(self)@, final(self)@, now_nanos as nat, packet_size as nat, wait as nat),
            wait <= MAX_WAIT_NANOS,
    {
        proof {
            use_type_invariant(&*self);
        }
        if self.rate == 0 {
            return 0;
        }
        let elapsed: u128 = if now_nanos >= self.last_refill {
            now_nanos - self.last_refill
        } else {
            0
        };
        let wait: u64 = self.refill_and_take(elapsed, packet_size);
        self.last_refill = now_nanos;
        wait
    }
}

/// However long since the last packet and whatever its size, a packet is
/// never told to wait more than 100 ms, and the bucket never holds more than
/// one second's worth of bytes.
pub proof fn lemma_settle_bounds(tokens: int, rate: nat, elapsed: nat, size: nat)
    requires
        rate > 0,
        tokens <= capacity(rate),
    ensures
        settle(tokens, rate, elapsed, size).1 <= MAX_WAIT_NANOS,
        settle(tokens, rate, elapsed, size).0 <= capacity(rate),
{
}

/// A packet that finds enough tokens goes at once and takes exactly its size
/// from the bucket.
pub proof fn lemma_enough_tokens_no_wait(tokens: int, rate: nat, elapsed: nat, size: nat)
    requires
        rate > 0,
        refilled(tokens, rate, elapsed) >= cost_of(size),
    ensures
        settle(tokens, rate, elapsed, size) == (refilled(tokens, rate, elapsed) - cost_of(size), 0nat),
{
}

/// A bucket that is not in debt and has been idle for a second is full
/// again: a burst of up to one second's worth of bytes then goes without
/// waiting.
pub proof fn lemma_idle_second_refills(tokens: int, rate: nat, elapsed: nat, size: nat)
    requires
        rate > 0,
        0 <= tokens,
        elapsed >= NANOS_PER_SECOND,
        size <= rate,
    ensures
        refilled(tokens, rate, elapsed) == capacity(rate),
        settle(tokens, rate, elapsed, size).1 == 0,
{
    assert(elapsed * rate >= NANOS_PER_SECOND * rate) by (nonlinear_arith)
        requires
            elapsed >= NANOS_PER_SECOND,
    ;
    assert(cost_of(size) <= capacity(rate)) by (nonlinear_arith)
        requires
            size <= rate,
    ;
}

/// Below the cap, the wait is the time the bucket takes to earn back the
/// shortfall, rounded up to the nanosecond.
pub proof fn lemma_wait_repays_shortfall(tokens: int, rate: nat, elapsed: nat, size: nat)
    requires
        rate > 0,
        refilled(tokens, rate, elapsed) < cost_of(size),
        settle(tokens, rate, elapsed, size).1 < MAX_WAIT_NANOS,
    ensures
        ({
            let short = cost_of(size) - refilled(tokens, rate, elapsed);
            let w = settle(tokens, rate, elapsed, size).1;
            (w - 1) * rate < short <= w * rate
        }),
{
    let short = cost_of(size) - refilled(tokens, rate, elapsed);
    let w = (short + rate - 1) / (rate as int);
    assert((w - 1) * rate < short <= w * rate) by (nonlinear_arith)
        requires
            rate > 0,
            short > 0,
            w == (short + rate - 1) / (rate as int),
    ;
}

/// A packet that finds too few tokens always waits at least a nanosecond.
pub proof fn lemma_short_packet_waits(tokens: int, rate: nat, elapsed: nat, size: nat)
    requires
        rate > 0,
        refilled(tokens, rate, elapsed) < cost_of(size),
    ensures
        settle(tokens, rate, elapsed, size).1 > 0,
{
    let short = cost_of(size) - refilled(tokens, rate, elapsed);
    assert((short + rate - 1) / (rate as int) >= 1) by (nonlinear_arith)
        requires
            rate > 0,
            short > 0,
    ;
}

/// A new bucket starts full: whenever its first packet comes, a packet of
/// at most one second's worth of bytes goes without waiting.
pub proof fn lemma_new_bucket_passes_first_packet(
    rate: nat,
    made: nat,
    now: nat,
    size: nat,
    after: (int, nat, nat),
    wait: nat,
)
    requires
        size <= rate,
        consumed((capacity(rate), rate, made), after, now, size, wait),
    ensures
        wait == 0,
        rate > 0 ==> after == (capacity(rate) - cost_of(size), rate, now),
{
    if rate > 0 {
        let elapsed = time_since(made, now);
        assert(elapsed * rate >= 0) by (nonlinear_arith);
        assert(cost_of(size) <= capacity(rate)) by (nonlinear_arith)
            requires
                size <= rate,
        ;
    }
}

/// What a packet does to a limited bucket, in plain arithmetic: where the
/// refill since the last packet does not reach a full bucket and the count
/// stays above the floor, the new count is the old one plus `elapsed * rate`
/// minus the packet's bytes (in token units), however deep in debt that
/// leaves it; the packet goes at once exactly when that count is not
/// negative, and otherwise waits the time the debt takes to repay, rounded up
/// to the nanosecond, at most 100 ms.
pub proof fn lemma_consume_accounts_exactly(
    before: (int, nat, nat),
    after: (int, nat, nat),
    now: nat,
    size: nat,
    wait: nat,
)
    requires
        before.1 > 0,
        now >= before.2,
        consumed(before, after, now, size, wait),
        before.0 + (now - before.2) * before.1 <= before.1 * NANOS_PER_SECOND,
        before.0 + (now - before.2) * before.1 - size * NANOS_PER_SECOND >= TOKEN_FLOOR,
    ensures
        after.0 == before.0 + (now - before.2) * before.1 - size * NANOS_PER_SECOND,
        after.1 == before.1,
        after.2 == now,
        (wait == 0) == (after.0 >= 0),
        wait <= MAX_WAIT_NANOS,
        after.0 < 0 && wait < MAX_WAIT_NANOS ==> (wait - 1) * before.1 < -after.0 <= wait
            * before.1,
{
    let rate = before.1;
    let elapsed = time_since(before.2, now);
    assert(elapsed == now - before.2);
    assert(refilled(before.0, rate, elapsed) == before.0 + elapsed * rate);
    if refilled(before.0, rate, elapsed) < cost_of(size) {
        lemma_short_packet_waits(before.0, rate, elapsed, size);
        if wait < MAX_WAIT_NANOS {
            lemma_wait_repays_shortfall(before.0, rate, elapsed, size);
        }
    }
}

} // verus!
