//! Limiting the rate of writes to a number of bytes per second: a quota of
//! bytes that refills with the time elapsed since it was last refilled.
//! Whoever owns the writer asks the limiter how much it may write, sleeps
//! or gives up as it answers, and reports what was written.
use vstd::prelude::*;
use std::time::Instant;

verus! {

#[verifier::external_type_specification]
#[verifier::external_body]
pub struct ExInstant(Instant);

/// Calls `Instant::now`. Trusted for nothing: it is the time now.
#[verifier::external_body]
fn instant_now() -> Instant {
    Instant::now()
}

/// Calls `Instant::duration_since`: the time from `earlier` to `later` (zero
/// when `later` is earlier). Nothing is stated of the result: it rests on
/// the clock.
#[verifier::external_body]
fn duration_since(later: Instant, earlier: Instant) -> std::time::Duration {
    later.duration_since(earlier)
}

/// Calls `Duration::as_millis`: the whole milliseconds in `d`. Nothing is
/// stated of the result: a duration's contents are not visible here.
#[verifier::external_body]
fn whole_millis(d: std::time::Duration) -> u128 {
    d.as_millis()
}

/// A writer whose writes are limited to `bps` bytes per second (no limit
/// when `bps` is 0).
pub struct LimitWriter<W> {
    inner: W,
    bytes_left: usize,
    bps: usize,
    last_updated: Instant,
    blocking: bool,
    partial_writes: bool,
}

pub struct LimitView {
    pub bytes_left: usize,
    pub bps: usize,
    pub blocking: bool,
    pub partial_writes: bool,
}

impl<W> View for LimitWriter<W> {
    type V = LimitView;

    closed spec fn view(&self) -> LimitView {
        LimitView {
            bytes_left: self.bytes_left,
            bps: self.bps,
            blocking: self.blocking,
            partial_writes: self.partial_writes,
        }
    }
}

/// What may be written right away.
#[derive(Clone, Copy, Debug, PartialEq, Eq, Structural)]
pub enum Quota {
    /// This many bytes.
    Write(usize),
    /// The quota does not cover the write: the clock decides.
    Clock,
}

/// What the clock decides.
#[derive(Clone, Copy, Debug, PartialEq, Eq, Structural)]
pub enum Admit {
    /// Write the whole buffer.
    Write,
    /// Sleep this many milliseconds from the time of the refill, then write
    /// the whole buffer.
    Sleep(u64),
    /// Refuse: the write would block.
    WouldBlock,
}

pub open spec fn spec_quota(v: LimitView, len: usize) -> Quota {
    if v.bps == 0 || v.bytes_left >= len {
        Quota::Write(len)
    } else if v.partial_writes && v.bytes_left != 0 {
        Quota::Write(v.bytes_left)
    } else {
        Quota::Clock
    }
}

pub open spec fn min(a: int, b: int) -> int {
    if a < b {
        a
    } else {
        b
    }
}

pub open spec fn max(a: int, b: int) -> int {
    if a > b {
        a
    } else {
        b
    }
}

/// The quota after `elapsed` milliseconds: `bps / 1000` bytes a millisecond,
/// at most the larger of the shortfall and a second's worth.
pub open spec fn refilled(v: LimitView, len: usize, elapsed: usize) -> int {
    v.bytes_left + min(elapsed * (v.bps / 1000), max(len - v.bytes_left, v.bps as int))
}

pub open spec fn spec_admit(v: LimitView, len: usize, elapsed: usize) -> Admit {
    let left = refilled(v, len, elapsed);
    if left >= len {
        Admit::Write
    } else if v.blocking {
        Admit::Sleep(((len - left) / (v.bps / 1000) as int) as u64)
    } else {
        Admit::WouldBlock
    }
}

/// The refill for `elapsed` milliseconds can be computed: the bytes that
/// many milliseconds give and the refilled quota fit in a `usize`, and a
/// blocking limiter whose quota still falls short can compute its sleep.
pub open spec fn refill_ok(v: LimitView, len: usize, elapsed: usize) -> bool {
    &&& elapsed * (v.bps / 1000) <= usize::MAX
    &&& refilled(v, len, elapsed) <= usize::MAX
    &&& (v.blocking && refilled(v, len, elapsed) < len) ==> v.bps / 1000 > 0
}

impl<W> LimitWriter<W> {
    /// A limiter with a full second's quota, blocking, without partial writes.
    pub fn new(writer: W, bps: usize) -> (r: Self)
        ensures
            r@ == (LimitView { bytes_left: bps, bps, blocking: true, partial_writes: false }),
            r.inner() == writer,
    {
        LimitWriter {
            inner: writer,
            bytes_left: bps,
            bps,
            last_updated: instant_now(),
            partial_writes: false,
            blocking: true,
        }
    }

    pub closed spec fn inner(&self) -> W {
        self.inner
    }

    /// When the quota was last refilled, or the limiter last woke up.
    pub closed spec fn spec_last_updated(&self) -> Instant {
        self.last_updated
    }

    /// Whether a write may take what is left of the quota when that does
    /// not cover it.
    pub fn set_partial_writes(&mut self, partial_writes: bool)
        ensures
            final(self)@ == (LimitView { partial_writes, ..old(self)@ }),
            final(self).inner() == old(self).inner(),
            final(self).spec_last_updated() == old(self).spec_last_updated(),
    {
        self.partial_writes = partial_writes;
    }

    /// Whether a write waits for the quota or is refused.
    pub fn set_blocking(&mut self, blocking: bool)
        ensures
            final(self)@ == (LimitView { blocking, ..old(self)@ }),
            final(self).inner() == old(self).inner(),
            final(self).spec_last_updated() == old(self).spec_last_updated(),
    {
        self.blocking = blocking;
    }

    /// The writer behind the limiter.
    pub fn get_mut(&mut self) -> (r: &mut W)
        ensures
            *r == old(self).inner(),
            final(self)@ == old(self)@,
            final(self).inner() == *final(r),
    {
        &mut self.inner
    }

    /// Bytes left of the quota.
    pub fn bytes_left(&self) -> (r: usize)
        ensures
            r == self@.bytes_left,
    {
        self.bytes_left
    }

    /// The limit in bytes per second.
    pub fn bps(&self) -> (r: usize)
        ensures
            r == self@.bps,
    {
        self.bps
    }

    /// Whether a write waits for the quota.
    pub fn is_blocking(&self) -> (r: bool)
        ensures
            r == self@.blocking,
    {
        self.blocking
    }

    /// When the quota was last refilled.
    pub fn last_updated(&self) -> (r: Instant)
        ensures
            r == self.spec_last_updated(),
    {
        self.last_updated
    }

    /// How much of a write of `len` bytes may go now.
    pub fn quota(&self, len: usize) -> (r: Quota)
        ensures
            r == spec_quota(self@, len),
    {
        if self.bps == 0 || self.bytes_left >= len {
            Quota::Write(len)
        } else if self.partial_writes && self.bytes_left != 0 {
            Quota::Write(self.bytes_left)
        } else {
            Quota::Clock
        }
    }

    /// Refills the quota for `elapsed` milliseconds, as of `now`, and
    /// decides a write of `len` bytes that the quota did not cover.
    pub fn refill(&mut self, len: usize, elapsed: usize, now: Instant) -> (r: Admit)
        requires
            spec_quota(old(self)@, len) == Quota::Clock,
            refill_ok(old(self)@, len, elapsed),
        ensures
            final(self)@ == (LimitView { bytes_left: refilled(old(self)@, len, elapsed) as usize, ..old(self)@ }),
            old(self)@.bytes_left <= final(self)@.bytes_left,
            final(self)@.bytes_left <= old(self)@.bytes_left + elapsed * (old(self)@.bps / 1000),
            final(self)@.bytes_left <= old(self)@.bytes_left + (if len - old(self)@.bytes_left > old(self)@.bps {
                len - old(self)@.bytes_left
            } else {
                old(self)@.bps as int
            }),
            r == spec_admit(old(self)@, len, elapsed),
            final(self).inner() == old(self).inner(),
            final(self).spec_last_updated() == now,
    {
        let rate = self.bps / 1000;
        let cap = if len - self.bytes_left > self.bps {
            len - self.bytes_left
        } else {
            self.bps
        };
        let p = elapsed * rate;
        let add = if p < cap {
            p
        } else {
            cap
        };
        self.bytes_left = self.bytes_left + add;
        self.last_updated = now;
        if self.bytes_left >= len {
            Admit::Write
        } else if self.blocking {
            Admit::Sleep(((len - self.bytes_left) / rate) as u64)
        } else {
            Admit::WouldBlock
        }
    }

    /// Reads the clock and refills; what the clock says is not known here,
    /// so the quota is the refill for some number of milliseconds. Where that
    /// refill cannot be computed (it overflows, or a blocking limiter below a
    /// thousand bytes a second would divide by zero) the result is `None`
    /// and the limiter is left as it was.
    pub fn check_clock(&mut self, len: usize) -> (r: Option<Admit>)
        requires
            spec_quota(old(self)@, len) == Quota::Clock,
        ensures
            final(self).inner() == old(self).inner(),
            old(self)@.bytes_left <= final(self)@.bytes_left,
            final(self)@.bytes_left <= old(self)@.bytes_left + (if len - old(self)@.bytes_left > old(self)@.bps {
                len - old(self)@.bytes_left
            } else {
                old(self)@.bps as int
            }),
            exists|elapsed: usize|
                match r {
                    Some(a) => refill_ok(old(self)@, len, elapsed) && final(self)@ == (LimitView {
                        bytes_left: refilled(old(self)@, len, elapsed) as usize,
                        ..old(self)@
                    }) && a == spec_admit(old(self)@, len, elapsed),
                    None => !refill_ok(old(self)@, len, elapsed) && final(self)@ == old(self)@
                        && final(self).spec_last_updated() == old(self).spec_last_updated(),
                },
    {
        let now = instant_now();
        let ms = whole_millis(duration_since(now, self.last_updated));
        let elapsed = ms as usize;
        let rate = self.bps / 1000;
        let cap = if len - self.bytes_left > self.bps {
            len - self.bytes_left
        } else {
            self.bps
        };
        let p = match elapsed.checked_mul(rate) {
            Some(p) => p,
            None => {
                assert(!refill_ok(old(self)@, len, elapsed));
                return None;
            },
        };
        let add = if p < cap {
            p
        } else {
            cap
        };
        let left = match self.bytes_left.checked_add(add) {
            Some(l) => l,
            None => {
                assert(!refill_ok(old(self)@, len, elapsed));
                return None;
            },
        };
        if self.blocking && left < len && rate == 0 {
            assert(!refill_ok(old(self)@, len, elapsed));
            return None;
        }
        assert(refill_ok(old(self)@, len, elapsed));
        Some(self.refill(len, elapsed, now))
    }

    /// The time the limiter woke up at after sleeping for its quota.
    pub fn woke(&mut self, t: Instant)
        ensures
            final(self)@ == old(self)@,
            final(self).inner() == old(self).inner(),
            final(self).spec_last_updated() == t,
    {
        self.last_updated = t;
    }

    /// Takes what was written off the quota.
    pub fn wrote(&mut self, written: usize)
        ensures
            final(self)@ == (LimitView {
                bytes_left: (old(self)@.bytes_left - min(written as int, old(self)@.bytes_left as int)) as usize,
                ..old(self)@
            }),
            final(self).inner() == old(self).inner(),
    {
        let taken = if written < self.bytes_left {
            written
        } else {
            self.bytes_left
        };
        self.bytes_left = self.bytes_left - taken;
    }
}

/// The quota a refill gives never grows past the larger of the shortfall
/// and a second's worth, nor past what the elapsed milliseconds earn, and it
/// does reach the smaller of the two: an idle limiter banks at most a
/// second's worth (or the write's shortfall), however long it was idle.
pub proof fn lemma_refill_capped(v: LimitView, len: usize, elapsed: usize)
    ensures
        v.bytes_left <= refilled(v, len, elapsed),
        refilled(v, len, elapsed) <= v.bytes_left + elapsed * (v.bps / 1000),
        refilled(v, len, elapsed) <= v.bytes_left + (if len - v.bytes_left > v.bps {
            len - v.bytes_left
        } else {
            v.bps as int
        }),
        refilled(v, len, elapsed) == v.bytes_left + elapsed * (v.bps / 1000) || refilled(v, len, elapsed)
            == v.bytes_left + (if len - v.bytes_left > v.bps {
            len - v.bytes_left
        } else {
            v.bps as int
        }),
{
    assert(elapsed * (v.bps / 1000) >= 0) by (nonlinear_arith);
}

/// A limiter idle for any time, refilled for a write, keeps after that
/// write no more than what exceeded its shortfall up to a second's worth:
/// with a thousand bytes a second and nothing left, ten idle seconds and a
/// write of 1500 bytes leave nothing for the next write.
pub proof fn lemma_idle_limiter_banks_a_second(v: LimitView, len: usize, elapsed: usize)
    requires
        v.bytes_left < len,
    ensures
        refilled(v, len, elapsed) - len <= (if v.bps > len - v.bytes_left {
            v.bps - (len - v.bytes_left)
        } else {
            0
        }),
{
    lemma_refill_capped(v, len, elapsed);
}

/// What a refilled limiter does with a write: it writes when the quota
/// covers the write; otherwise a blocking limiter sleeps for the whole
/// milliseconds that the shortfall takes to earn at `bps / 1000` bytes a
/// millisecond, and a non-blocking one refuses.
pub proof fn lemma_admit_follows_quota(v: LimitView, len: usize, elapsed: usize)
    requires
        refill_ok(v, len, elapsed),
    ensures
        ({
            let left = refilled(v, len, elapsed);
            let rate = v.bps / 1000;
            &&& (spec_admit(v, len, elapsed) == Admit::Write <==> left >= len)
            &&& (spec_admit(v, len, elapsed) == Admit::WouldBlock <==> left < len && !v.blocking)
            &&& (spec_admit(v, len, elapsed) matches Admit::Sleep(ms) ==> left < len && v.blocking && ms * rate
                <= len - left < (ms + 1) * rate)
        }),
{
    let left = refilled(v, len, elapsed);
    let rate = v.bps / 1000;
    if left < len && v.blocking {
        let q = (len - left) / (rate as int);
        assert(q * rate <= len - left < (q + 1) * rate) by (nonlinear_arith)
            requires
                rate > 0,
                len - left > 0,
                q == (len - left) / (rate as int),
        ;
        assert(q <= u64::MAX) by (nonlinear_arith)
            requires
                rate > 0,
                0 < len - left <= usize::MAX,
                q == (len - left) / (rate as int),
        ;
    }
}

} // verus!
