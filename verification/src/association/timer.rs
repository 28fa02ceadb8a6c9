//! Timers of an association and the retransmission timeout.

use vstd::arithmetic::power2::{lemma_pow2_pos, lemma_pow2_unfold, pow2};
use vstd::prelude::*;

use crate::chunk::payload::Instant;

verus! {

/// How many milliseconds an acknowledgement is delayed.
pub const ACK_INTERVAL: u64 = 200;

/// How often INIT and COOKIE ECHO are retransmitted.
pub const MAX_INIT_RETRANS: usize = 8;

/// How often RECONFIG is retransmitted.
pub const MAX_RECONFIG_RETRANS: usize = 5;


/// The retransmission timeout before the first measurement, in milliseconds.
pub const RTO_INITIAL: u64 = 3000;

/// The shortest retransmission timeout, in milliseconds.
pub const RTO_MIN: u64 = 1000;

/// The longest retransmission timeout, in milliseconds.
pub const RTO_MAX: u64 = 60000;

/// From this many retransmissions on the longest timeout applies.
pub const RTO_STEPS: usize = 31;

/// The timers of an association.
#[derive(Debug, Clone, Copy, PartialEq, Eq, Structural)]
pub enum Timer {
    T1Init,
    T1Cookie,
    T2Shutdown,
    T3RTX,
    Reconfig,
    Ack,
}

/// All timers, in the order in which they are served.
pub open spec fn all_timers() -> Seq<Timer> {
    seq![
        Timer::T1Init,
        Timer::T1Cookie,
        Timer::T2Shutdown,
        Timer::T3RTX,
        Timer::Reconfig,
        Timer::Ack,
    ]
}

/// A timer: when it expires, if it runs, and how often it expired since it was last stopped.
#[derive(Debug, Clone, Copy, PartialEq, Eq, Structural)]
pub struct TimerSlot {
    pub deadline: Option<Instant>,
    pub retrans: usize,
}

/// The timers of an association.
#[derive(Debug, Clone, Copy, PartialEq, Eq, Structural)]
pub struct TimerTable {
    pub t1_init: TimerSlot,
    pub t1_cookie: TimerSlot,
    pub t2_shutdown: TimerSlot,
    pub t3_rtx: TimerSlot,
    pub reconfig: TimerSlot,
    pub ack: TimerSlot,
}

impl TimerSlot {
    /// A timer that does not run.
    pub open spec fn idle() -> TimerSlot {
        TimerSlot { deadline: None, retrans: 0 }
    }

    /// Whether the timer expired by `now`.
    pub open spec fn is_expired(self, now: Instant) -> bool {
        self.deadline matches Some(d) && d <= now
    }
}

/// The point in time that lies `millis` milliseconds behind `now`, or the last one there is.
pub open spec fn deadline(now: Instant, millis: u64) -> Instant {
    if now + millis * 1_000_000 <= u64::MAX {
        (now + millis * 1_000_000) as u64
    } else {
        u64::MAX
    }
}

/// The point in time that lies `millis` milliseconds behind `now`.
fn later(now: Instant, millis: u64) -> (r: Instant)
    ensures
        r == deadline(now, millis),
{
    let nanos: u128 = (now as u128) + (millis as u128) * 1_000_000;
    if nanos <= u64::MAX as u128 {
        nanos as u64
    } else {
        u64::MAX
    }
}

/// The timeout after `n` retransmissions: doubled each time, up to the longest one.
#[verifier::opaque]
pub open spec fn backoff(rto: u64, n: usize) -> u64 {
    if n < RTO_STEPS && rto * pow2(n as nat) <= RTO_MAX {
        (rto * pow2(n as nat)) as u64
    } else {
        RTO_MAX
    }
}

/// The timeout after `n` retransmissions.
pub fn calculate_next_timeout(rto: u64, n: usize) -> (r: u64)
    ensures
        r == backoff(rto, n),
        r <= RTO_MAX,
{
    reveal(backoff);
    if n >= RTO_STEPS {
        return RTO_MAX;
    }
    let mut r: u64 = rto;
    let mut i: usize = 0;
    assert(rto * pow2(0) == rto) by {
        vstd::arithmetic::power2::lemma2_to64();
    }
    while i < n && r <= RTO_MAX
        invariant
            i <= n < RTO_STEPS,
            r <= RTO_MAX ==> r == rto * pow2(i as nat),
            r > RTO_MAX ==> rto * pow2(i as nat) > RTO_MAX,
        decreases n - i,
    {
        proof {
            lemma_pow2_unfold((i + 1) as nat);
            assert(rto * (2 * pow2(i as nat)) == 2 * (rto * pow2(i as nat))) by (nonlinear_arith);
        }
        r = r * 2;
        i += 1;
    }
    if r > RTO_MAX {
        proof {
            lemma_backoff_grows(rto, i as nat, n as nat);
        }
        return RTO_MAX;
    }
    r
}

proof fn lemma_backoff_grows(rto: u64, i: nat, n: nat)
    requires
        i <= n,
    ensures
        rto * pow2(i) <= rto * pow2(n),
    decreases n - i,
{
    if i < n {
        lemma_backoff_grows(rto, i + 1, n);
        lemma_pow2_unfold(i + 1);
        lemma_pow2_pos(i);
        let p = pow2(i);
        assert(rto * p <= rto * (2 * p)) by (nonlinear_arith)
            requires
                p > 0,
                rto >= 0,
        ;
    }
}

impl TimerTable {
    /// No timer runs.
    pub open spec fn idle() -> TimerTable {
        TimerTable {
            t1_init: TimerSlot::idle(),
            t1_cookie: TimerSlot::idle(),
            t2_shutdown: TimerSlot::idle(),
            t3_rtx: TimerSlot::idle(),
            reconfig: TimerSlot::idle(),
            ack: TimerSlot::idle(),
        }
    }

    /// The slot of a timer.
    pub open spec fn slot(self, timer: Timer) -> TimerSlot {
        match timer {
            Timer::T1Init => self.t1_init,
            Timer::T1Cookie => self.t1_cookie,
            Timer::T2Shutdown => self.t2_shutdown,
            Timer::T3RTX => self.t3_rtx,
            Timer::Reconfig => self.reconfig,
            Timer::Ack => self.ack,
        }
    }

    /// The table with the slot of a timer replaced.
    pub open spec fn with(self, timer: Timer, slot: TimerSlot) -> TimerTable {
        match timer {
            Timer::T1Init => TimerTable { t1_init: slot, ..self },
            Timer::T1Cookie => TimerTable { t1_cookie: slot, ..self },
            Timer::T2Shutdown => TimerTable { t2_shutdown: slot, ..self },
            Timer::T3RTX => TimerTable { t3_rtx: slot, ..self },
            Timer::Reconfig => TimerTable { reconfig: slot, ..self },
            Timer::Ack => TimerTable { ack: slot, ..self },
        }
    }

    /// The table with a timer running from `now` on; all but the acknowledgement timer run
    /// longer after each retransmission.
    #[verifier::opaque]
    pub open spec fn started(self, timer: Timer, now: Instant, interval: u64) -> TimerTable {
        let millis = if timer is Ack {
            interval
        } else {
            backoff(interval, self.slot(timer).retrans)
        };
        self.with(timer, TimerSlot { deadline: Some(deadline(now, millis)), ..self.slot(timer) })
    }

    /// The table with a timer started unless it runs beyond `now`.
    pub open spec fn restarted_if_stale(
        self,
        timer: Timer,
        now: Instant,
        interval: u64,
    ) -> TimerTable {
        match self.slot(timer).deadline {
            Some(d) if d >= now => self,
            _ => self.started(timer, now, interval),
        }
    }

    /// The table with a timer stopped.
    pub open spec fn stopped(self, timer: Timer) -> TimerTable {
        self.with(timer, TimerSlot::idle())
    }

    /// The table with an expiry of a timer counted.
    pub open spec fn counted(self, timer: Timer) -> TimerTable {
        self.with(
            timer,
            TimerSlot {
                retrans: self.slot(timer).retrans.saturating_add(1),
                ..self.slot(timer)
            },
        )
    }

    /// Whether a timer expired more often than it may.
    pub open spec fn is_exhausted(self, timer: Timer) -> bool {
        max_retrans(timer) matches Some(n) && self.slot(timer).retrans > n
    }
}

/// How often a timer may expire before that is a failure.
pub open spec fn max_retrans(timer: Timer) -> Option<usize> {
    match timer {
        Timer::T1Init => Some(MAX_INIT_RETRANS),
        Timer::T1Cookie => Some(MAX_INIT_RETRANS),
        Timer::Reconfig => Some(MAX_RECONFIG_RETRANS),
        _ => None,
    }
}

/// The earlier of two points in time.
pub open spec fn earlier(a: Option<Instant>, b: Option<Instant>) -> Option<Instant> {
    match (a, b) {
        (Some(x), Some(y)) => if y < x {
            Some(y)
        } else {
            Some(x)
        },
        (Some(x), None) => Some(x),
        (None, y) => y,
    }
}

/// The earlier of two points in time.
fn earlier_of(a: Option<Instant>, b: Option<Instant>) -> (r: Option<Instant>)
    ensures
        r == earlier(a, b),
{
    match (a, b) {
        (Some(x), Some(y)) => if y < x {
            Some(y)
        } else {
            Some(x)
        },
        (Some(x), None) => Some(x),
        (None, y) => y,
    }
}

impl TimerTable {
    /// No timer runs.
    pub fn new() -> (r: Self)
        ensures
            r == TimerTable::idle(),
    {
        let idle = TimerSlot { deadline: None, retrans: 0 };
        TimerTable {
            t1_init: idle,
            t1_cookie: idle,
            t2_shutdown: idle,
            t3_rtx: idle,
            reconfig: idle,
            ack: idle,
        }
    }

    fn read(&self, timer: Timer) -> (r: TimerSlot)
        ensures
            r == self.slot(timer),
    {
        match timer {
            Timer::T1Init => self.t1_init,
            Timer::T1Cookie => self.t1_cookie,
            Timer::T2Shutdown => self.t2_shutdown,
            Timer::T3RTX => self.t3_rtx,
            Timer::Reconfig => self.reconfig,
            Timer::Ack => self.ack,
        }
    }

    fn write(&mut self, timer: Timer, slot: TimerSlot)
        ensures
            *final(self) == old(self).with(timer, slot),
    {
        match timer {
            Timer::T1Init => {
                self.t1_init = slot;
            },
            Timer::T1Cookie => {
                self.t1_cookie = slot;
            },
            Timer::T2Shutdown => {
                self.t2_shutdown = slot;
            },
            Timer::T3RTX => {
                self.t3_rtx = slot;
            },
            Timer::Reconfig => {
                self.reconfig = slot;
            },
            Timer::Ack => {
                self.ack = slot;
            },
        }
    }

    /// When a timer expires, if it runs.
    pub fn get(&self, timer: Timer) -> (r: Option<Instant>)
        ensures
            r == self.slot(timer).deadline,
    {
        self.read(timer).deadline
    }

    /// Sets when a timer expires.
    pub fn set(&mut self, timer: Timer, deadline: Option<Instant>)
        ensures
            *final(self) == old(self).with(timer, TimerSlot { deadline, ..old(self).slot(timer) }),
    {
        let slot = self.read(timer);
        self.write(timer, TimerSlot { deadline, retrans: slot.retrans });
    }

    /// When the first timer expires.
    pub fn next_timeout(&self) -> (r: Option<Instant>)
        ensures
            r == self.first_deadline(),
            match r {
                Some(t) => {
                    &&& exists|timer: Timer| (#[trigger] self.slot(timer)).deadline == Some(t)
                    &&& forall|timer: Timer| (#[trigger] self.slot(timer)).deadline matches Some(d)
                        ==> t <= d
                },
                None => forall|timer: Timer| (#[trigger] self.slot(timer)).deadline is None,
            },
    {
        let a = earlier_of(self.t1_init.deadline, self.t1_cookie.deadline);
        let b = earlier_of(self.t2_shutdown.deadline, self.t3_rtx.deadline);
        let c = earlier_of(self.reconfig.deadline, self.ack.deadline);
        let r = earlier_of(earlier_of(a, b), c);
        proof {
            assert(self.slot(Timer::T1Init) == self.t1_init);
            assert(self.slot(Timer::T1Cookie) == self.t1_cookie);
            assert(self.slot(Timer::T2Shutdown) == self.t2_shutdown);
            assert(self.slot(Timer::T3RTX) == self.t3_rtx);
            assert(self.slot(Timer::Reconfig) == self.reconfig);
            assert(self.slot(Timer::Ack) == self.ack);
        }
        r
    }

    /// The earliest of all deadlines.
    pub open spec fn first_deadline(self) -> Option<Instant> {
        earlier(
            earlier(
                earlier(self.t1_init.deadline, self.t1_cookie.deadline),
                earlier(self.t2_shutdown.deadline, self.t3_rtx.deadline),
            ),
            earlier(self.reconfig.deadline, self.ack.deadline),
        )
    }

    /// Starts a timer.
    pub fn start(&mut self, timer: Timer, now: Instant, interval: u64)
        ensures
            *final(self) == old(self).started(timer, now, interval),
    {
        reveal(TimerTable::started);
        let slot = self.read(timer);
        let millis = if timer == Timer::Ack {
            interval
        } else {
            calculate_next_timeout(interval, slot.retrans)
        };
        self.write(
            timer,
            TimerSlot { deadline: Some(later(now, millis)), retrans: slot.retrans },
        );
    }

    /// Restarts a timer if it does not run or has elapsed.
    pub fn restart_if_stale(&mut self, timer: Timer, now: Instant, interval: u64)
        ensures
            *final(self) == old(self).restarted_if_stale(timer, now, interval),
    {
        if let Some(current) = self.get(timer) {
            if current >= now {
                return;
            }
        }
        self.start(timer, now, interval);
    }

    /// Stops a timer.
    pub fn stop(&mut self, timer: Timer)
        ensures
            *final(self) == old(self).stopped(timer),
    {
        self.write(timer, TimerSlot { deadline: None, retrans: 0 });
    }

    /// Whether a timer expired by `now`, whether that is a failure, and how often it expired. An
    /// expiry is counted.
    pub fn is_expired(&mut self, timer: Timer, now: Instant) -> (r: (bool, bool, usize))
        ensures
            r.0 == old(self).slot(timer).is_expired(now),
            r.1 == (r.0 && old(self).counted(timer).is_exhausted(timer)),
            r.2 == final(self).slot(timer).retrans,
            *final(self) == if r.0 {
                old(self).counted(timer)
            } else {
                *old(self)
            },
    {
        let slot = self.read(timer);
        let expired = match slot.deadline {
            Some(d) => d <= now,
            None => false,
        };
        let mut failure = false;
        let mut retrans: usize = slot.retrans;
        if expired {
            retrans = slot.retrans.saturating_add(1);
            self.write(timer, TimerSlot { deadline: slot.deadline, retrans });
            failure = match timer {
                Timer::T1Init => retrans > MAX_INIT_RETRANS,
                Timer::T1Cookie => retrans > MAX_INIT_RETRANS,
                Timer::Reconfig => retrans > MAX_RECONFIG_RETRANS,
                _ => false,
            };
        }
        (expired, failure, retrans)
    }
}

impl Default for TimerTable {
    fn default() -> (r: Self)
        ensures
            r == TimerTable::idle(),
    {
        TimerTable::new()
    }
}

/// Measures round trips and computes the retransmission timeout, in milliseconds.
#[derive(Debug, Clone, Copy, PartialEq, Eq, Structural)]
pub struct RtoManager {
    /// The smoothed round trip time.
    pub srtt: u64,
    /// Four times the variation of the round trip time.
    pub rttvar4: u64,
    /// The retransmission timeout.
    pub rto: u64,
}

/// A timeout within the bounds.
pub open spec fn clamp_rto(rto: int) -> u64 {
    if rto < RTO_MIN {
        RTO_MIN
    } else if rto > RTO_MAX {
        RTO_MAX
    } else {
        rto as u64
    }
}

/// `x`, or the greatest number that fits.
pub open spec fn cap64(x: int) -> u64 {
    if x > u64::MAX {
        u64::MAX
    } else {
        x as u64
    }
}

/// The distance between two numbers.
pub open spec fn distance(a: u64, b: u64) -> int {
    if a >= b {
        a - b
    } else {
        b - a
    }
}

impl RtoManager {
    /// Nothing is measured, and there is no timeout yet.
    pub open spec fn blank() -> RtoManager {
        RtoManager { srtt: 0, rttvar4: 0, rto: 0 }
    }

    /// Nothing is measured.
    pub open spec fn initial() -> RtoManager {
        RtoManager { srtt: 0, rttvar4: 0, rto: RTO_INITIAL }
    }

    /// After a measurement. The first one sets the round trip time, and half of it as its
    /// variation; a later one moves the round trip time by an eighth and the variation by a
    /// quarter of the way. The timeout is the round trip time and four times its variation.
    #[verifier::opaque]
    pub open spec fn measured(self, rtt: u64) -> RtoManager {
        let (srtt, rttvar4) = if self.srtt == 0 {
            (rtt, cap64(2 * rtt as int))
        } else {
            (
                ((7 * self.srtt + rtt) / 8) as u64,
                cap64((3 * self.rttvar4 + 4 * distance(self.srtt, rtt)) / 4),
            )
        };
        RtoManager { srtt, rttvar4, rto: clamp_rto(srtt + rttvar4) }
    }

    /// Nothing is measured.
    pub fn new() -> (r: Self)
        ensures
            r == RtoManager::initial(),
    {
        RtoManager { srtt: 0, rttvar4: 0, rto: RTO_INITIAL }
    }

    /// Takes a measurement and returns the smoothed round trip time.
    pub fn set_new_rtt(&mut self, rtt: u64) -> (r: u64)
        ensures
            *final(self) == old(self).measured(rtt),
            r == final(self).srtt,
    {
        reveal(RtoManager::measured);
        let rttvar4: u128;
        if self.srtt == 0 {
            self.srtt = rtt;
            rttvar4 = 2 * (rtt as u128);
        } else {
            let d: u64 = if self.srtt >= rtt {
                self.srtt - rtt
            } else {
                rtt - self.srtt
            };
            rttvar4 = (3 * (self.rttvar4 as u128) + 4 * (d as u128)) / 4;
            self.srtt = ((7 * (self.srtt as u128) + (rtt as u128)) / 8) as u64;
        }
        self.rttvar4 = if rttvar4 > u64::MAX as u128 {
            u64::MAX
        } else {
            rttvar4 as u64
        };
        let rto: u128 = (self.srtt as u128) + (self.rttvar4 as u128);
        self.rto = if rto < RTO_MIN as u128 {
            RTO_MIN
        } else if rto > RTO_MAX as u128 {
            RTO_MAX
        } else {
            rto as u64
        };
        self.srtt
    }

    /// The retransmission timeout.
    pub fn get_rto(&self) -> (r: u64)
        ensures
            r == self.rto,
    {
        self.rto
    }
}

impl Default for RtoManager {
    fn default() -> (r: Self)
        ensures
            r == RtoManager::blank(),
    {
        RtoManager { srtt: 0, rttvar4: 0, rto: 0 }
    }
}

/// A measured timeout lies within the bounds.
pub proof fn law_rto_is_bounded(m: RtoManager, rtt: u64)
    ensures
        RTO_MIN <= m.measured(rtt).rto <= RTO_MAX,
{
    reveal(RtoManager::measured);
}

/// A timeout does not get shorter with a retransmission and never passes the longest one.
pub proof fn law_backoff_does_not_shrink(rto: u64, n: usize)
    requires
        n < usize::MAX,
    ensures
        backoff(rto, n) <= backoff(rto, (n + 1) as usize) <= RTO_MAX,
{
    reveal(backoff);
    if n + 1 < RTO_STEPS {
        lemma_backoff_grows(rto, n as nat, (n + 1) as nat);
    }
}

} // verus!
