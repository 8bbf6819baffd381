use vstd::prelude::*;
use crate::send_buffer::SYN_INTERVAL;
use crate::utils::{hash, seq_before, seq_diff, SequenceNumber};

verus! {

/// Largest payload of a single data packet, in bytes.
pub const MAX_PACKET_SIZE: u16 = 128;

/// Microseconds in one second.
pub const MICROS: u64 = 1_000_000;

/// Rate-control interval: 10 ms, in microseconds.
pub const RC_INTERVAL: u64 = 10_000;

/// Smallest rate increment, in millionths of a packet.
pub const MIN_INC: u64 = 10_000;

/// Largest value of the smoothed 16-bit estimates.
pub const EST_MAX: u64 = 65535;

/// Pacing, window and RTT state of one connection. Times are in microseconds,
/// rates in packets per second, increments in millionths of a packet.
#[derive(Debug)]
pub struct CongestionController {
    pkt_send_period: u64,
    congestion_window: u64,
    max_congestion_window: u64,
    bandwidth: u64,
    mss: u64,
    cur_send_seq_no: SequenceNumber,
    recv_rate: u64,
    rtt: u64,
    rtt_var: u64,
    ack_interval: u64,
    rc_interval: u64,
    last_rc_time: u64,
    slow_start: bool,
    last_ack_seq_no: SequenceNumber,
    loss: bool,
    last_dec_seq_no: SequenceNumber,
    last_dec_period: u64,
    loss_count: u64,
    dec_random: u64,
    avg_loss: u64,
    dec_count: u64,
    pkt_count: u64,
}

pub struct CongestionView {
    pub pkt_send_period: u64,
    pub congestion_window: u64,
    pub max_congestion_window: u64,
    pub bandwidth: u64,
    pub mss: u64,
    pub cur_send_seq_no: SequenceNumber,
    pub recv_rate: u64,
    pub rtt: u64,
    pub rtt_var: u64,
    pub ack_interval: u64,
    pub rc_interval: u64,
    pub last_rc_time: u64,
    pub slow_start: bool,
    pub last_ack_seq_no: SequenceNumber,
    pub loss: bool,
    pub last_dec_seq_no: SequenceNumber,
    pub last_dec_period: u64,
    pub loss_count: u64,
    pub dec_random: u64,
    pub avg_loss: u64,
    pub dec_count: u64,
    pub pkt_count: u64,
}

impl View for CongestionController {
    type V = CongestionView;

    closed spec fn view(&self) -> CongestionView {
        CongestionView {
            pkt_send_period: self.pkt_send_period,
            congestion_window: self.congestion_window,
            max_congestion_window: self.max_congestion_window,
            bandwidth: self.bandwidth,
            mss: self.mss,
            cur_send_seq_no: self.cur_send_seq_no,
            recv_rate: self.recv_rate,
            rtt: self.rtt,
            rtt_var: self.rtt_var,
            ack_interval: self.ack_interval,
            rc_interval: self.rc_interval,
            last_rc_time: self.last_rc_time,
            slow_start: self.slow_start,
            last_ack_seq_no: self.last_ack_seq_no,
            loss: self.loss,
            last_dec_seq_no: self.last_dec_seq_no,
            last_dec_period: self.last_dec_period,
            loss_count: self.loss_count,
            dec_random: self.dec_random,
            avg_loss: self.avg_loss,
            dec_count: self.dec_count,
            pkt_count: self.pkt_count,
        }
    }
}

/// Send period when slow start ends: one packet per receive-rate slot, or the
/// window spread over one RTT plus the control interval when no rate is known.
pub open spec fn exit_period(c: CongestionView) -> u64 {
    if c.recv_rate > 0 {
        (MICROS / c.recv_rate) as u64
    } else {
        (c.congestion_window / (c.rtt + c.rc_interval) as u64) as u64
    }
}

/// Delay until the next timed ACK: the ACK interval in milliseconds (saturating),
/// or the sync interval when no interval is set.
pub open spec fn ack_delay(c: CongestionView) -> u64 {
    if c.ack_interval == 0 {
        SYN_INTERVAL
    } else if c.ack_interval * 1000 > u64::MAX {
        u64::MAX
    } else {
        (c.ack_interval * 1000) as u64
    }
}

/// The smallest power of ten at or above `x`, searching up from `p`.
pub open spec fn pow10_from(p: nat, x: nat) -> nat
    decreases (if p > x { 0 } else { x - p + 1 }),
    when p > 0
{
    if p >= x {
        p
    } else {
        pow10_from(10 * p, x)
    }
}

/// Increment for the headroom `b` (packets per second) at segment size `mss`:
/// `10^ceil(log10(b·mss·8)) · 1.5 / mss` millionths of a packet, at least `MIN_INC`.
pub open spec fn increment(b: int, mss: int) -> int {
    if b <= 0 {
        MIN_INC as int
    } else {
        let x: int = pow10_from(1, (b * mss * 8) as nat) as int * 3 / (2 * mss);
        if x < MIN_INC { MIN_INC as int } else { x }
    }
}

/// Bandwidth headroom over the current sending rate, capped at a ninth of the
/// bandwidth when the period grew since the last decrease.
pub open spec fn headroom(c: CongestionView) -> int {
    let b: int = c.bandwidth as int - MICROS as int / rate_period(c);
    if c.pkt_send_period > c.last_dec_period && b > (c.bandwidth / 9) as int {
        (c.bandwidth / 9) as int
    } else {
        b
    }
}

/// The window after an acknowledgement up to `ack`: in slow start it grows by the
/// newly acknowledged count and slow start ends once it passes the maximum;
/// otherwise it is `recv_rate · (rtt + rc) + 16` packets, with the time in seconds.
pub open spec fn window_step(o: CongestionView, ack: SequenceNumber, now: u64) -> CongestionView {
    if o.slow_start {
        let w = o.congestion_window.saturating_add(seq_diff(ack.0 as int, o.last_ack_seq_no.0 as int) as u64);
        let v = CongestionView { congestion_window: w, last_ack_seq_no: ack, last_rc_time: now, ..o };
        if w > o.max_congestion_window {
            CongestionView { slow_start: false, pkt_send_period: exit_period(v), ..v }
        } else {
            v
        }
    } else {
        CongestionView {
            congestion_window: (o.recv_rate * (o.rtt + o.rc_interval) / MICROS as int + 16) as u64,
            last_rc_time: now,
            ..o
        }
    }
}

/// The period used as the sending rate's denominator (never zero).
pub open spec fn rate_period(c: CongestionView) -> int {
    if c.pkt_send_period == 0 { 1 } else { c.pkt_send_period as int }
}

/// The new send period: `period · rc / (period · inc + rc)`, with `inc` in millionths.
pub open spec fn paced_period(period: int, inc: int, rc: int) -> int {
    period * rc * MICROS / (period * inc + rc * MICROS)
}

impl CongestionController {
    pub open spec fn wf(&self) -> bool {
        &&& self@.rtt <= 65_535_000
        &&& self@.rtt_var <= 65_535_000
        &&& self@.recv_rate <= EST_MAX
        &&& self@.bandwidth <= EST_MAX
        &&& self@.mss == MAX_PACKET_SIZE
        &&& self@.rc_interval == RC_INTERVAL
        &&& self@.cur_send_seq_no.wf()
        &&& self@.last_dec_seq_no.wf()
        &&& self@.last_ack_seq_no.wf()
    }

    pub fn new(now: u64) -> (r: Self)
        ensures
            r.wf(),
            r@.pkt_send_period == 1,
            r@.congestion_window == 16,
            r@.max_congestion_window == 16,
            r@.bandwidth == 1,
            r@.recv_rate == 16,
            r@.rtt == 10,
            r@.rtt_var == 1,
            r@.ack_interval == 0,
            r@.slow_start,
            !r@.loss,
            r@.pkt_count == 0,
            r@.last_rc_time == now,
    {
        CongestionController {
            pkt_send_period: 1,
            congestion_window: 16,
            max_congestion_window: 16,
            bandwidth: 1,
            mss: MAX_PACKET_SIZE as u64,
            cur_send_seq_no: SequenceNumber(0x7fff),
            recv_rate: 16,
            rtt: 10,
            rtt_var: 1,
            ack_interval: 0,
            rc_interval: RC_INTERVAL,
            last_rc_time: now,
            slow_start: true,
            last_ack_seq_no: SequenceNumber(0x7fff),
            loss: false,
            last_dec_seq_no: SequenceNumber(0x7fff),
            last_dec_period: 1,
            loss_count: 0,
            dec_random: 1,
            avg_loss: 0,
            dec_count: 1,
            pkt_count: 0,
        }
    }

    /// Whether enough packets arrived since the last ACK to send a light ACK.
    pub fn should_ack(&self) -> (r: bool)
        ensures
            r == (self@.ack_interval > 0 && self@.ack_interval < self@.pkt_count),
    {
        self.ack_interval > 0 && self.ack_interval < self.pkt_count
    }

    /// Restarts the packet count and gives the delay until the next timed ACK.
    pub fn next_ack(&mut self) -> (r: u64)
        ensures
            final(self)@ == (CongestionView { pkt_count: 0, ..old(self)@ }),
            r == ack_delay(old(self)@),
    {
        self.pkt_count = 0;
        if self.ack_interval == 0 {
            SYN_INTERVAL
        } else if self.ack_interval > u64::MAX / 1000 {
            u64::MAX
        } else {
            self.ack_interval * 1000
        }
    }

    pub fn inc_pkt_cnt(&mut self)
        ensures
            final(self)@ == (CongestionView { pkt_count: old(self)@.pkt_count.saturating_add(1), ..old(self)@ }),
    {
        self.pkt_count = self.pkt_count.saturating_add(1);
    }

    /// `rtt + 4·rtt_var`: how long before a repeated ACK is due.
    pub fn long_poll(&self) -> (r: u64)
        requires
            self.wf(),
        ensures
            r == self@.rtt + 4 * self@.rtt_var,
    {
        self.rtt + 4 * self.rtt_var
    }

    fn leave_slow_start(&mut self)
        requires
            old(self).wf(),
        ensures
            final(self).wf(),
            final(self)@ == (CongestionView { slow_start: false, pkt_send_period: exit_period(old(self)@), ..old(self)@ }),
    {
        self.slow_start = false;
        if self.recv_rate > 0 {
            self.pkt_send_period = MICROS / self.recv_rate;
        } else {
            self.pkt_send_period = self.congestion_window / (self.rtt + self.rc_interval);
        }
    }

    /// Reacts to a loss report starting at `loss_start`: leaves slow start, and
    /// for a loss after the last decrease slows the period by an eighth.
    pub fn on_loss(&mut self, loss_start: SequenceNumber)
        requires
            old(self).wf(),
            loss_start.wf(),
        ensures
            final(self).wf(),
            ({
                let o = old(self)@;
                let p = if o.slow_start { exit_period(o) } else { o.pkt_send_period };
                if o.slow_start && o.recv_rate > 0 {
                    final(self)@ == (CongestionView { slow_start: false, pkt_send_period: p, ..o })
                } else if seq_before(o.last_dec_seq_no.0 as int, loss_start.0 as int) {
                    final(self)@ == (CongestionView {
                        slow_start: false,
                        loss: true,
                        last_dec_period: p,
                        pkt_send_period: p.saturating_add(p / 8),
                        avg_loss: ((o.avg_loss as int * 7 + o.loss_count) / 8) as u64,
                        loss_count: o.loss_count.saturating_add(1),
                        dec_count: o.dec_count.saturating_add(1),
                        last_dec_seq_no: o.cur_send_seq_no,
                        dec_random: 1,
                        ..o
                    })
                } else {
                    final(self)@ == (CongestionView { slow_start: false, loss: true, pkt_send_period: p, ..o })
                }
            }),
    {
        if self.slow_start {
            self.leave_slow_start();
            if self.recv_rate > 0 {
                return;
            }
        }
        self.loss = true;
        if self.last_dec_seq_no.before(&loss_start) {
            self.last_dec_period = self.pkt_send_period;
            self.pkt_send_period = self.pkt_send_period.saturating_add(self.pkt_send_period / 8);
            self.avg_loss = ((self.avg_loss as u128 * 7 + self.loss_count as u128) / 8) as u64;
            self.loss_count = self.loss_count.saturating_add(1);
            self.dec_count = self.dec_count.saturating_add(1);
            self.last_dec_seq_no = self.cur_send_seq_no;
            self.dec_random = hash(self.last_dec_seq_no.0 as u64) / u64::MAX;
            if self.dec_random < 1 {
                self.dec_random = 1;
            }
        }
    }

    /// Leaves slow start after a timeout.
    pub fn on_timeout(&mut self)
        requires
            old(self).wf(),
        ensures
            final(self).wf(),
            old(self)@.slow_start ==> final(self)@ == (CongestionView { slow_start: false, pkt_send_period: exit_period(old(self)@), ..old(self)@ }),
            !old(self)@.slow_start ==> final(self)@ == old(self)@,
    {
        if self.slow_start {
            self.leave_slow_start();
        }
    }

    /// The current send period.
    pub fn next_time(&self) -> (r: u64)
        ensures
            r == self@.pkt_send_period,
    {
        self.pkt_send_period
    }

    /// Folds an RTT sample (milliseconds) into the estimates:
    /// `rtt_var = (3·rtt_var + |sample − rtt|) / 4`, `rtt = (7·rtt + sample) / 8`.
    pub fn update_rtt(&mut self, rtt: u16)
        requires
            old(self).wf(),
        ensures
            final(self).wf(),
            ({
                let o = old(self)@;
                let s = rtt as int * 1000;
                let d = if s >= o.rtt { s - o.rtt } else { o.rtt - s };
                final(self)@ == (CongestionView {
                    rtt_var: ((3 * o.rtt_var + d) / 4) as u64,
                    rtt: ((7 * o.rtt + s) / 8) as u64,
                    ..o
                })
            }),
    {
        let s: u64 = rtt as u64 * 1000;
        let d: u64 = if s >= self.rtt { s - self.rtt } else { self.rtt - s };
        self.rtt_var = (3 * self.rtt_var + d) / 4;
        self.rtt = (7 * self.rtt + s) / 8;
    }

    /// Smooths the receive rate: `(7·old + x + 4) / 8`.
    pub fn update_recv_rate(&mut self, recv_rate: u16)
        requires
            old(self).wf(),
        ensures
            final(self).wf(),
            final(self)@ == (CongestionView { recv_rate: ((7 * old(self)@.recv_rate + recv_rate + 4) / 8) as u64, ..old(self)@ }),
    {
        self.recv_rate = (7 * self.recv_rate + recv_rate as u64 + 4) / 8;
    }

    /// Smooths the bandwidth estimate: `(7·old + x + 4) / 8`.
    pub fn update_bandwidth(&mut self, bandwidth: u16)
        requires
            old(self).wf(),
        ensures
            final(self).wf(),
            final(self)@ == (CongestionView { bandwidth: ((7 * old(self)@.bandwidth + bandwidth + 4) / 8) as u64, ..old(self)@ }),
    {
        self.bandwidth = (7 * self.bandwidth + bandwidth as u64 + 4) / 8;
    }

    /// Rate control on an acknowledgement up to `ack`, at most once per control
    /// interval: grows the window (see `window_step`); out of slow start and with no
    /// loss since the last step, shortens the period by the bandwidth headroom.
    pub fn on_ack(&mut self, ack: SequenceNumber, now: u64)
        requires
            old(self).wf(),
            ack.wf(),
        ensures
            final(self).wf(),
            ({
                let o = old(self)@;
                let v = window_step(o, ack, now);
                if now.saturating_sub(o.last_rc_time) < o.rc_interval {
                    final(self)@ == o
                } else if v.slow_start {
                    final(self)@ == v
                } else if v.loss {
                    final(self)@ == (CongestionView { loss: false, ..v })
                } else {
                    final(self)@ == (CongestionView {
                        pkt_send_period: paced_period(
                            v.pkt_send_period as int,
                            increment(headroom(v), v.mss as int),
                            v.rc_interval as int,
                        ) as u64,
                        ..v
                    })
                }
            }),
    {
        if now.saturating_sub(self.last_rc_time) < self.rc_interval {
            return;
        }
        self.last_rc_time = now;
        if self.slow_start {
            let d = ack.diff(self.last_ack_seq_no);
            self.congestion_window = self.congestion_window.saturating_add(d as u64);
            self.last_ack_seq_no = ack;
            if self.congestion_window > self.max_congestion_window {
                self.leave_slow_start();
            }
        } else {
            proof {
                assert(self.recv_rate * (self.rtt + self.rc_interval) <= 65535 * 65_545_000) by (nonlinear_arith)
                    requires self.recv_rate <= 65535, self.rtt + self.rc_interval <= 65_545_000;
            }
            self.congestion_window = self.recv_rate * (self.rtt + self.rc_interval) / MICROS + 16;
        }
        if self.slow_start {
            return;
        }
        if self.loss {
            self.loss = false;
            return;
        }
        let pd: u64 = if self.pkt_send_period == 0 { 1 } else { self.pkt_send_period };
        let mut b: i64 = self.bandwidth as i64 - (MICROS / pd) as i64;
        let ghost b0 = b;
        proof {
            assert(pd as int == rate_period(self@));
            assert(b0 == self@.bandwidth as int - MICROS as int / rate_period(self@));
        }
        let cap: i64 = (self.bandwidth / 9) as i64;
        if self.pkt_send_period > self.last_dec_period && b > cap {
            b = cap;
            proof {
                assert(headroom(self@) == (self@.bandwidth / 9) as int);
            }
        } else {
            proof {
                assert(headroom(self@) == b0);
            }
        }
        let inc: u64 = if b <= 0 {
            MIN_INC
        } else {
            let x: u64 = b as u64 * self.mss * 8;
            let mut p: u64 = 1;
            while p < x
                invariant
                    0 < p <= 10 * x,
                    x <= 67_107_840,
                    pow10_from(p as nat, x as nat) == pow10_from(1, x as nat),
                decreases 10 * x - p,
            {
                p = 10 * p;
            }
            let v = p * 3 / (2 * self.mss);
            assert(v <= 0x1_0000_0000);
            if v < MIN_INC { MIN_INC } else { v }
        };
        proof {
            let v = self@;
            assert(b as int == headroom(v));
            assert(inc as int == increment(headroom(v), v.mss as int));
        }
        let period = self.pkt_send_period as u128;
        let rc = self.rc_interval as u128;
        proof {
            assert(period * rc * 1_000_000 <= 0x1_0000_0000_0000_0000 * 10_000 * 1_000_000) by (nonlinear_arith)
                requires period < 0x1_0000_0000_0000_0000, rc == 10_000;
            assert(inc <= 0x1_0000_0000);
            assert(period * inc <= 0x1_0000_0000_0000_0000 * 0x1_0000_0000) by (nonlinear_arith)
                requires period < 0x1_0000_0000_0000_0000, inc <= 0x1_0000_0000;
        }
        let num = period * rc * MICROS as u128;
        let den = period * inc as u128 + rc * MICROS as u128;
        proof {
            assert(num / den <= period) by (nonlinear_arith)
                requires num == period * rc * 1_000_000, den == period * inc + rc * 1_000_000, rc > 0, inc > 0;
        }
        self.pkt_send_period = (num / den) as u64;
    }

    /// `(rtt, rtt_var)` in microseconds.
    pub fn rtt(&self) -> (r: (u64, u64))
        ensures
            r == (self@.rtt, self@.rtt_var),
    {
        (self.rtt, self.rtt_var)
    }
}

} // verus!
