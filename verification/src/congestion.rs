//! The congestion controller: a window that follows the one-way queueing
//! delay rather than loss, and the round-trip estimate that times
//! retransmissions.
//!
//! All times are microseconds.

use crate::MAX_WINDOW_SIZE;
use vstd::prelude::*;

verus! {

/// Largest payload of one packet, in bytes.
pub const MAX_PAYLOAD: usize = 1_400;

/// Smallest congestion window: one packet.
pub const MIN_WINDOW_SIZE: usize = 1_400;

/// The queueing delay that the controller aims at.
pub const TARGET_DELAY: u32 = 100_000;

/// Number of delay samples over which the baseline is taken.
pub const DELAY_HISTORY: usize = 16;

/// Retransmission timeout before any round trip was measured.
pub const INITIAL_TIMEOUT: u64 = 1_000_000;

/// Smallest retransmission timeout.
pub const MIN_TIMEOUT: u64 = 500_000;

/// Largest retransmission timeout, and the largest round-trip time that is
/// taken as a sample.
pub const MAX_TIMEOUT: u64 = 60_000_000;

/// The parameters of the protocol that are a matter of tuning.
#[derive(Clone, Copy, Debug, PartialEq, Eq, Structural)]
pub struct Tuning {
    /// Most bytes by which the window grows or shrinks in one control
    /// interval.
    pub gain: usize,
    /// Length of the control interval; 0 stands for one smoothed round-trip
    /// time.
    pub control_interval: u64,
    /// How often a packet may be passed over by acknowledgments of later
    /// packets before it is sent again at once.
    pub fast_resend_threshold: u32,
}

impl Tuning {
    /// The gain is no larger than the largest window.
    pub open spec fn wf(self) -> bool {
        self.gain <= MAX_WINDOW_SIZE
    }

    /// The parameters with the gain brought down to the largest window
    /// where it exceeds it.
    pub open spec fn limited(self) -> Tuning {
        Tuning {
            gain: if self.gain > MAX_WINDOW_SIZE {
                MAX_WINDOW_SIZE
            } else {
                self.gain
            },
            ..self
        }
    }

    /// The parameters with the gain brought down to the largest window
    /// where it exceeds it.
    pub fn limit(self) -> (t: Tuning)
        ensures
            t == self.limited(),
            t.wf(),
    {
        Tuning {
            gain: if self.gain > MAX_WINDOW_SIZE {
                MAX_WINDOW_SIZE
            } else {
                self.gain
            },
            control_interval: self.control_interval,
            fast_resend_threshold: self.fast_resend_threshold,
        }
    }

    /// One packet of gain per round-trip time, and a resend after three
    /// acknowledgments that pass a packet over.
    pub open spec fn standard_spec() -> Tuning {
        Tuning { gain: MAX_PAYLOAD, control_interval: 0, fast_resend_threshold: 3 }
    }

    /// One packet of gain per round-trip time, and a resend after three
    /// acknowledgments that pass a packet over.
    pub fn standard() -> (t: Tuning)
        ensures
            t == Tuning::standard_spec(),
            t.wf(),
    {
        Tuning { gain: MAX_PAYLOAD, control_interval: 0, fast_resend_threshold: 3 }
    }
}

/// The smaller of two numbers.
pub open spec fn min_of(a: int, b: int) -> int {
    if a <= b {
        a
    } else {
        b
    }
}

/// `a + b`, or the largest 64-bit number where the sum exceeds it.
pub open spec fn saturating_sum(a: u64, b: u64) -> u64 {
    if a + b > u64::MAX {
        u64::MAX
    } else {
        (a + b) as u64
    }
}

/// The smallest of the samples; 0 for none.
pub open spec fn baseline(delays: Seq<u32>) -> u32
    decreases delays.len(),
{
    if delays.len() == 0 {
        0
    } else if delays.len() == 1 {
        delays[0]
    } else {
        let rest = baseline(delays.drop_last());
        if delays.last() < rest {
            delays.last()
        } else {
            rest
        }
    }
}

/// `window` brought into the range from one packet to the largest window,
/// and then below what the peer is willing to receive.
pub open spec fn bounded(window: int, peer_window: int) -> int {
    let clamped = if window < MIN_WINDOW_SIZE {
        MIN_WINDOW_SIZE as int
    } else if window > MAX_WINDOW_SIZE {
        MAX_WINDOW_SIZE as int
    } else {
        window
    };
    min_of(clamped, peer_window)
}

/// The retransmission timeout for a smoothed round-trip time and its
/// variation: the time plus four times the variation, within the limits.
pub open spec fn timeout_for(rtt: u64, rtt_var: u64) -> u64 {
    let t = rtt + 4 * rtt_var;
    if t < MIN_TIMEOUT {
        MIN_TIMEOUT
    } else if t > MAX_TIMEOUT {
        MAX_TIMEOUT
    } else {
        t as u64
    }
}

/// The bytes by which the window grows in one control interval at the
/// queueing delay `queuing`, which is at or below the target: the gain times
/// the share of the target that is left.
pub open spec fn growth(gain: int, queuing: int) -> int {
    gain * (TARGET_DELAY - queuing) / (TARGET_DELAY as int)
}

/// The bytes by which the window shrinks in one control interval at the
/// queueing delay `queuing`, which is above the target: the gain times the
/// share of the target by which the delay exceeds it, and no more than the
/// gain.
pub open spec fn shrinkage(gain: int, queuing: int) -> int {
    let excess = min_of(queuing - TARGET_DELAY, TARGET_DELAY as int);
    gain * excess / (TARGET_DELAY as int)
}

/// The controller as a mathematical value.
pub struct CongestionView {
    /// The congestion window in bytes.
    pub window: int,
    /// Bytes that the peer is willing to receive.
    pub peer_window: int,
    /// The window still doubles with every window that is acknowledged in
    /// full.
    pub slow_start: bool,
    /// The latest delay samples, oldest first.
    pub delays: Seq<u32>,
    /// When the window was last adjusted to the delay.
    pub last_adjust: u64,
    /// A round trip was measured.
    pub has_rtt: bool,
    /// Smoothed round-trip time.
    pub rtt: u64,
    /// Smoothed variation of the round-trip time.
    pub rtt_var: u64,
    /// Retransmission timeout.
    pub timeout: u64,
    /// The tuning parameters.
    pub tuning: Tuning,
}

/// What happens to a controller.
pub enum Event {
    /// A round trip of this length was measured.
    RoundTrip(u64),
    /// The peer advertised this window.
    PeerWindow(u32),
    /// The peer reported this one-way delay at this time; the flag says
    /// whether everything sent is acknowledged.
    Delay(u32, bool, u64),
    /// A retransmission timeout ran out.
    Timeout,
}

impl CongestionView {
    /// The invariant of the controller: the window is at most the largest
    /// window and at most the peer's window, and at least one packet unless
    /// the peer's window is smaller; the estimates are within their limits.
    pub open spec fn wf(self) -> bool {
        &&& self.peer_window >= 0
        &&& self.window == bounded(self.window, self.peer_window)
        &&& self.delays.len() <= DELAY_HISTORY
        &&& self.rtt <= MAX_TIMEOUT
        &&& self.rtt_var <= MAX_TIMEOUT
        &&& MIN_TIMEOUT <= self.timeout <= MAX_TIMEOUT
        &&& self.tuning.wf()
    }

    /// The controller of a new connection.
    pub open spec fn initial(tuning: Tuning) -> CongestionView {
        CongestionView {
            window: MIN_WINDOW_SIZE as int,
            peer_window: MAX_WINDOW_SIZE as int,
            slow_start: true,
            delays: Seq::empty(),
            last_adjust: 0,
            has_rtt: false,
            rtt: 0,
            rtt_var: 0,
            timeout: INITIAL_TIMEOUT,
            tuning,
        }
    }

    /// Length of the control interval.
    pub open spec fn interval(self) -> u64 {
        if self.tuning.control_interval > 0 {
            self.tuning.control_interval
        } else {
            self.rtt
        }
    }

    /// A control interval has passed at `now` since the last adjustment.
    pub open spec fn interval_elapsed(self, now: u64) -> bool {
        now >= self.last_adjust && now - self.last_adjust >= self.interval()
    }

    /// The controller after a round trip of `sample` was measured. The first
    /// sample sets the estimate; a later one moves the time by an eighth and
    /// the variation by a quarter of the way. Samples count up to
    /// `MAX_TIMEOUT`.
    pub open spec fn with_rtt_sample(self, sample: u64) -> CongestionView {
        let s: u64 = if sample > MAX_TIMEOUT {
            MAX_TIMEOUT
        } else {
            sample
        };
        let (rtt, rtt_var): (u64, u64) = if !self.has_rtt {
            (s, s / 2)
        } else {
            let delta: int = if self.rtt > s {
                self.rtt - s
            } else {
                s - self.rtt
            };
            (
                (self.rtt - self.rtt / 8 + s / 8) as u64,
                (self.rtt_var - self.rtt_var / 4 + delta / 4) as u64,
            )
        };
        CongestionView { has_rtt: true, rtt, rtt_var, timeout: timeout_for(rtt, rtt_var), ..self }
    }

    /// The controller after the peer advertised `peer_window`.
    pub open spec fn with_peer_window(self, peer_window: u32) -> CongestionView {
        CongestionView {
            peer_window: peer_window as int,
            window: bounded(self.window, peer_window as int),
            ..self
        }
    }

    /// The controller after a retransmission timeout: the window falls to
    /// one packet and the timeout doubles.
    pub open spec fn after_timeout(self) -> CongestionView {
        CongestionView {
            window: bounded(MIN_WINDOW_SIZE as int, self.peer_window),
            timeout: if self.timeout * 2 > MAX_TIMEOUT {
                MAX_TIMEOUT
            } else {
                (self.timeout * 2) as u64
            },
            ..self
        }
    }

    /// The delay samples after `sample` was added: the latest
    /// `DELAY_HISTORY` of them.
    pub open spec fn delays_with(self, sample: u32) -> Seq<u32> {
        let all = self.delays.push(sample);
        if all.len() > DELAY_HISTORY {
            all.subrange(1, all.len() as int)
        } else {
            all
        }
    }

    /// The controller after the peer reported the one-way delay `sample` at
    /// `now`.
    ///
    /// The queueing delay is the sample less the baseline, the smallest of
    /// the latest samples. Above the target, slow start ends for good, and
    /// once per control interval the window shrinks. At or below the
    /// target, the window doubles in slow start whenever `fully_acked`
    /// holds, and otherwise grows once per control interval. The result is
    /// kept within the bounds.
    pub open spec fn with_delay_sample(self, sample: u32, fully_acked: bool, now: u64)
        -> CongestionView {
        let delays = self.delays_with(sample);
        let queuing: int = sample - baseline(delays);
        let due = self.interval_elapsed(now);
        if queuing > TARGET_DELAY {
            CongestionView {
                delays,
                slow_start: false,
                window: if due {
                    bounded(self.window - shrinkage(self.tuning.gain as int, queuing), self.peer_window)
                } else {
                    self.window
                },
                last_adjust: if due {
                    now
                } else {
                    self.last_adjust
                },
                ..self
            }
        } else if self.slow_start {
            CongestionView {
                delays,
                window: if fully_acked {
                    bounded(self.window * 2, self.peer_window)
                } else {
                    self.window
                },
                ..self
            }
        } else {
            CongestionView {
                delays,
                window: if due {
                    bounded(self.window + growth(self.tuning.gain as int, queuing), self.peer_window)
                } else {
                    self.window
                },
                last_adjust: if due {
                    now
                } else {
                    self.last_adjust
                },
                ..self
            }
        }
    }

    /// The controller after `event`.
    pub open spec fn after(self, event: Event) -> CongestionView {
        match event {
            Event::RoundTrip(sample) => self.with_rtt_sample(sample),
            Event::PeerWindow(w) => self.with_peer_window(w),
            Event::Delay(sample, fully_acked, now) => self.with_delay_sample(
                sample,
                fully_acked,
                now,
            ),
            Event::Timeout => self.after_timeout(),
        }
    }

    /// The controller after the events of `events`, one after the other.
    pub open spec fn after_all(self, events: Seq<Event>) -> CongestionView
        decreases events.len(),
    {
        if events.len() == 0 {
            self
        } else {
            self.after_all(events.drop_last()).after(events.last())
        }
    }
}

/// The baseline is one of the samples and none of them is smaller.
pub proof fn lemma_baseline(delays: Seq<u32>)
    requires
        delays.len() > 0,
    ensures
        delays.contains(baseline(delays)),
        forall|i: int| 0 <= i < delays.len() ==> baseline(delays) <= #[trigger] delays[i],
    decreases delays.len(),
{
    if delays.len() == 1 {
        assert(delays[0] == baseline(delays));
    } else {
        let front = delays.drop_last();
        lemma_baseline(front);
        let b = baseline(front);
        let i = choose|i: int| 0 <= i < front.len() && front[i] == b;
        assert(delays[i] == b);
        assert(delays[delays.len() - 1] == delays.last());
        assert forall|j: int| 0 <= j < delays.len() implies baseline(delays) <= #[trigger] delays[j] by {
            if j < front.len() {
                assert(front[j] == delays[j]);
            }
        }
    }
}

/// Every event keeps the invariant of the controller.
pub proof fn lemma_event_keeps_wf(c: CongestionView, event: Event)
    requires
        c.wf(),
    ensures
        c.after(event).wf(),
{
    match event {
        Event::RoundTrip(sample) => {},
        Event::PeerWindow(w) => {},
        Event::Delay(sample, fully_acked, now) => {},
        Event::Timeout => {},
    }
}

/// After any sequence of acknowledgments and timeouts the congestion window
/// is at most `MAX_WINDOW_SIZE` and at most the window that the peer
/// advertised, and it is at least one packet wherever the peer's window is.
pub proof fn lemma_window_stays_bounded(c: CongestionView, events: Seq<Event>)
    requires
        c.wf(),
    ensures
        c.after_all(events).wf(),
        c.after_all(events).window <= MAX_WINDOW_SIZE,
        c.after_all(events).window <= c.after_all(events).peer_window,
        c.after_all(events).peer_window >= MIN_WINDOW_SIZE ==> c.after_all(events).window
            >= MIN_WINDOW_SIZE,
    decreases events.len(),
{
    if events.len() > 0 {
        lemma_window_stays_bounded(c, events.drop_last());
        lemma_event_keeps_wf(c.after_all(events.drop_last()), events.last());
    }
}

// ---------------------------------------------------------------------------
// The controller
// ---------------------------------------------------------------------------

/// Window and round-trip estimate of one connection.
pub struct Congestion {
    window: usize,
    peer_window: usize,
    slow_start: bool,
    delays: Vec<u32>,
    last_adjust: u64,
    has_rtt: bool,
    rtt: u64,
    rtt_var: u64,
    timeout: u64,
    tuning: Tuning,
}

impl View for Congestion {
    type V = CongestionView;

    closed spec fn view(&self) -> CongestionView {
        CongestionView {
            window: self.window as int,
            peer_window: self.peer_window as int,
            slow_start: self.slow_start,
            delays: self.delays@,
            last_adjust: self.last_adjust,
            has_rtt: self.has_rtt,
            rtt: self.rtt,
            rtt_var: self.rtt_var,
            timeout: self.timeout,
            tuning: self.tuning,
        }
    }
}

/// `window` brought into the range from one packet to the largest window,
/// and then below the peer's window.
fn bound(window: usize, peer_window: usize) -> (r: usize)
    ensures
        r == bounded(window as int, peer_window as int),
{
    let clamped: usize = if window < MIN_WINDOW_SIZE {
        MIN_WINDOW_SIZE
    } else if window > MAX_WINDOW_SIZE {
        MAX_WINDOW_SIZE
    } else {
        window
    };
    if clamped <= peer_window {
        clamped
    } else {
        peer_window
    }
}

/// The smallest of the samples; 0 for none.
fn smallest(delays: &Vec<u32>) -> (r: u32)
    ensures
        r == baseline(delays@),
{
    if delays.len() == 0 {
        return 0;
    }
    let mut best: u32 = delays[0];
    let mut i: usize = 1;
    assert(delays@.subrange(0, 1).len() == 1);
    while i < delays.len()
        invariant
            1 <= i <= delays@.len(),
            best == baseline(delays@.subrange(0, i as int)),
        decreases delays@.len() - i,
    {
        let ghost upto = delays@.subrange(0, i + 1);
        assert(upto.drop_last() =~= delays@.subrange(0, i as int));
        assert(upto.last() == delays@[i as int]);
        if delays[i] < best {
            best = delays[i];
        }
        i = i + 1;
    }
    assert(delays@.subrange(0, i as int) =~= delays@);
    best
}

impl Congestion {
    /// The invariant of the controller.
    pub open spec fn wf(&self) -> bool {
        self@.wf()
    }

    /// The controller of a new connection: a window of one packet, in slow
    /// start, no round trip measured. A gain beyond the largest window
    /// counts as the largest window.
    pub fn new(tuning: Tuning) -> (c: Congestion)
        ensures
            c.wf(),
            c@ == CongestionView::initial(tuning.limited()),
    {
        let tuning: Tuning = tuning.limit();
        Congestion {
            window: MIN_WINDOW_SIZE,
            peer_window: MAX_WINDOW_SIZE,
            slow_start: true,
            delays: Vec::new(),
            last_adjust: 0,
            has_rtt: false,
            rtt: 0,
            rtt_var: 0,
            timeout: INITIAL_TIMEOUT,
            tuning,
        }
    }

    /// The congestion window in bytes.
    pub fn window(&self) -> (r: usize)
        ensures
            r == self@.window,
    {
        self.window
    }

    /// The retransmission timeout.
    pub fn timeout(&self) -> (r: u64)
        ensures
            r == self@.timeout,
    {
        self.timeout
    }

    /// The tuning parameters.
    pub fn tuning(&self) -> (r: Tuning)
        ensures
            r == self@.tuning,
    {
        self.tuning
    }

    /// Whether the window still doubles with every window acknowledged in
    /// full.
    pub fn in_slow_start(&self) -> (r: bool)
        ensures
            r == self@.slow_start,
    {
        self.slow_start
    }

    /// Takes in a measured round trip.
    pub fn on_rtt_sample(&mut self, sample: u64)
        requires
            old(self).wf(),
        ensures
            final(self).wf(),
            final(self)@ == old(self)@.with_rtt_sample(sample),
    {
        let s: u64 = if sample > MAX_TIMEOUT {
            MAX_TIMEOUT
        } else {
            sample
        };
        if !self.has_rtt {
            self.rtt = s;
            self.rtt_var = s / 2;
            self.has_rtt = true;
        } else {
            let delta: u64 = if self.rtt > s {
                self.rtt - s
            } else {
                s - self.rtt
            };
            self.rtt_var = self.rtt_var - self.rtt_var / 4 + delta / 4;
            self.rtt = self.rtt - self.rtt / 8 + s / 8;
        }
        let t: u64 = self.rtt + 4 * self.rtt_var;
        self.timeout = if t < MIN_TIMEOUT {
            MIN_TIMEOUT
        } else if t > MAX_TIMEOUT {
            MAX_TIMEOUT
        } else {
            t
        };
    }

    /// Takes in the window that the peer advertised.
    pub fn set_peer_window(&mut self, peer_window: u32)
        requires
            old(self).wf(),
        ensures
            final(self).wf(),
            final(self)@ == old(self)@.with_peer_window(peer_window),
    {
        self.peer_window = peer_window as usize;
        self.window = bound(self.window, self.peer_window);
    }

    /// Takes in a retransmission timeout: the window falls to one packet and
    /// the timeout doubles.
    pub fn on_timeout(&mut self)
        requires
            old(self).wf(),
        ensures
            final(self).wf(),
            final(self)@ == old(self)@.after_timeout(),
    {
        self.window = bound(MIN_WINDOW_SIZE, self.peer_window);
        self.timeout = if self.timeout * 2 > MAX_TIMEOUT {
            MAX_TIMEOUT
        } else {
            self.timeout * 2
        };
    }

    /// Takes in a one-way delay that the peer reported at `now` and adjusts
    /// the window to it; `fully_acked` says whether everything sent is
    /// acknowledged.
    pub fn congestion_control_update(&mut self, sample: u32, fully_acked: bool, now: u64)
        requires
            old(self).wf(),
        ensures
            final(self).wf(),
            final(self)@ == old(self)@.with_delay_sample(sample, fully_acked, now),
    {
        let ghost before = self@;
        let interval: u64 = if self.tuning.control_interval > 0 {
            self.tuning.control_interval
        } else {
            self.rtt
        };
        let due: bool = now >= self.last_adjust && now - self.last_adjust >= interval;
        self.delays.push(sample);
        if self.delays.len() > DELAY_HISTORY {
            let _ = self.delays.remove(0);
        }
        assert(self.delays@ =~= before.delays_with(sample));
        let base: u32 = smallest(&self.delays);
        proof {
            lemma_baseline(self.delays@);
            assert(self.delays@[self.delays@.len() - 1] == sample);
        }
        let queuing: u32 = sample - base;
        let gain: u64 = self.tuning.gain as u64;
        let target: u64 = TARGET_DELAY as u64;
        if queuing > TARGET_DELAY {
            self.slow_start = false;
            if due {
                let excess: u64 = if queuing - TARGET_DELAY < TARGET_DELAY {
                    (queuing - TARGET_DELAY) as u64
                } else {
                    target
                };
                assert(gain * excess <= 0x1_0000 * 100_000) by (nonlinear_arith)
                    requires
                        gain <= 0x1_0000,
                        excess <= 100_000,
                ;
                let step: u64 = gain * excess / target;
                assert(step == shrinkage(before.tuning.gain as int, queuing as int));
                assert(step <= gain) by (nonlinear_arith)
                    requires
                        step == gain * excess / (target as int),
                        excess <= target,
                        target == 100_000,
                ;
                let lowered: usize = if (self.window as u64) > step {
                    self.window - step as usize
                } else {
                    0
                };
                self.window = bound(lowered, self.peer_window);
                self.last_adjust = now;
            }
        } else if self.slow_start {
            if fully_acked {
                self.window = bound(self.window * 2, self.peer_window);
            }
        } else if due {
            let room: u64 = (TARGET_DELAY - queuing) as u64;
            assert(gain * room <= 0x1_0000 * 100_000) by (nonlinear_arith)
                requires
                    gain <= 0x1_0000,
                    room <= 100_000,
            ;
            let step: u64 = gain * room / target;
            assert(step == growth(before.tuning.gain as int, queuing as int));
            assert(step <= gain) by (nonlinear_arith)
                requires
                    step == gain * room / (target as int),
                    room <= target,
                    target == 100_000,
            ;
            self.window = bound(self.window + step as usize, self.peer_window);
            self.last_adjust = now;
        }
    }
}

} // verus!
