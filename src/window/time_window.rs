use vstd::prelude::*;

verus! {

/// Fewest filtered samples from which a rate is reported.
pub const MEDIAN_LIMIT: usize = 128;

/// Inter-arrival samples (milliseconds) for the receive-speed and bandwidth
/// estimators, kept in two ring buffers. Times are in microseconds.
pub struct TimeWindow {
    min_send_interval: u64,
    last_packet: u64,
    last_probe: u64,
    packet_windows: Vec<u64>,
    probe_windows: Vec<u64>,
    packet_size: usize,
    probe_size: usize,
    packet_index: usize,
    probe_index: usize,
}

pub struct TimeWindowView {
    pub min_send_interval: u64,
    pub last_packet: u64,
    pub last_probe: u64,
    pub packet_windows: Seq<u64>,
    pub probe_windows: Seq<u64>,
    pub packet_index: usize,
    pub probe_index: usize,
}

impl View for TimeWindow {
    type V = TimeWindowView;

    closed spec fn view(&self) -> TimeWindowView {
        TimeWindowView {
            min_send_interval: self.min_send_interval,
            last_packet: self.last_packet,
            last_probe: self.last_probe,
            packet_windows: self.packet_windows@,
            probe_windows: self.probe_windows@,
            packet_index: self.packet_index,
            probe_index: self.probe_index,
        }
    }
}

/// Adds `v` to a ring of capacity `cap`: appended while there is room, else it
/// overwrites the slot at `idx`.
pub open spec fn ring_push(w: Seq<u64>, idx: int, cap: int, v: u64) -> Seq<u64> {
    if w.len() < cap {
        w.push(v)
    } else {
        w.update(idx, v)
    }
}

impl TimeWindow {
    pub closed spec fn wf(&self) -> bool {
        &&& self.packet_size == 16
        &&& self.probe_size == 64
        &&& self.packet_windows@.len() <= 16
        &&& self.probe_windows@.len() <= 64
        &&& self.packet_index < 16
        &&& self.probe_index < 64
    }

    pub fn new(now: u64) -> (r: Self)
        ensures
            r.wf(),
            r@.packet_windows.len() == 0,
            r@.probe_windows.len() == 0,
            r@.last_packet == now,
            r@.last_probe == now,
            r@.min_send_interval == 100_000,
    {
        TimeWindow {
            min_send_interval: 100_000,
            last_packet: now,
            last_probe: now,
            packet_windows: Vec::new(),
            probe_windows: Vec::new(),
            packet_size: 16,
            probe_size: 64,
            packet_index: 0,
            probe_index: 0,
        }
    }

    /// Median-filtered receive speed: the mean of the packet gaps within a factor
    /// of eight of their median, or 0 with fewer than `MEDIAN_LIMIT` such gaps.
    pub fn receive_speed(&self) -> (r: u64)
        requires
            self.wf(),
        ensures
            r == filtered_mean(self@.packet_windows),
    {
        median_filter(&self.packet_windows)
    }

    /// Median-filtered bandwidth estimate over the probe gaps (see `receive_speed`).
    pub fn bandwidth(&self) -> (r: u64)
        requires
            self.wf(),
        ensures
            r == filtered_mean(self@.probe_windows),
    {
        median_filter(&self.probe_windows)
    }

    /// Notes a send at `send_time`: the gap since the previous one becomes the
    /// minimum send interval when time moved forward.
    pub fn on_packet_sent(&mut self, send_time: u64)
        requires
            old(self).wf(),
        ensures
            final(self).wf(),
            final(self)@.last_packet == send_time,
            send_time >= old(self)@.last_packet ==> final(self)@.min_send_interval == send_time - old(self)@.last_packet,
            send_time < old(self)@.last_packet ==> final(self)@.min_send_interval == old(self)@.min_send_interval,
            final(self)@.packet_windows == old(self)@.packet_windows,
            final(self)@.probe_windows == old(self)@.probe_windows,
    {
        if send_time >= self.last_packet {
            self.min_send_interval = send_time - self.last_packet;
        }
        self.last_packet = send_time;
    }

    /// Records the gap (milliseconds) from the last send to an arrival at `now`.
    pub fn on_packet_arrival(&mut self, now: u64)
        requires
            old(self).wf(),
        ensures
            final(self).wf(),
            now >= old(self)@.last_packet ==> final(self)@.packet_windows == ring_push(
                old(self)@.packet_windows,
                old(self)@.packet_index as int,
                16,
                ((now - old(self)@.last_packet) / 1000) as u64,
            ),
            now < old(self)@.last_packet ==> final(self)@.packet_windows == old(self)@.packet_windows,
            final(self)@.probe_windows == old(self)@.probe_windows,
            final(self)@.last_packet == old(self)@.last_packet,
    {
        if now >= self.last_packet {
            let dur = (now - self.last_packet) / 1000;
            if self.packet_windows.len() < self.packet_size {
                self.packet_windows.push(dur);
            } else {
                self.packet_windows.set(self.packet_index, dur);
                self.packet_index = (self.packet_index + 1) % self.packet_size;
            }
        }
    }

    /// Marks the start of a probe pair at `now`.
    pub fn probe_start(&mut self, now: u64)
        requires
            old(self).wf(),
        ensures
            final(self).wf(),
            final(self)@ == (TimeWindowView { last_probe: now, ..old(self)@ }),
    {
        self.last_probe = now;
    }

    /// Records the gap (milliseconds) from the probe start to its end at `now`.
    pub fn probe_stop(&mut self, now: u64)
        requires
            old(self).wf(),
        ensures
            final(self).wf(),
            now >= old(self)@.last_probe ==> final(self)@.probe_windows == ring_push(
                old(self)@.probe_windows,
                old(self)@.probe_index as int,
                64,
                ((now - old(self)@.last_probe) / 1000) as u64,
            ),
            now < old(self)@.last_probe ==> final(self)@.probe_windows == old(self)@.probe_windows,
            final(self)@.packet_windows == old(self)@.packet_windows,
            final(self)@.last_probe == old(self)@.last_probe,
    {
        if now >= self.last_probe {
            let dur = (now - self.last_probe) / 1000;
            if self.probe_windows.len() < self.probe_size {
                self.probe_windows.push(dur);
            } else {
                self.probe_windows.set(self.probe_index, dur);
                self.probe_index = (self.probe_index + 1) % self.probe_size;
            }
        }
    }
}


/// Number of samples below `x`, and at most `x`.
pub open spec fn count_below(w: Seq<u64>, x: u64, strict: bool) -> nat
    decreases w.len(),
{
    if w.len() == 0 {
        0
    } else {
        count_below(w.drop_last(), x, strict) + if (strict && w.last() < x) || (!strict && w.last() <= x) { 1nat } else { 0nat }
    }
}

/// `x` is a median of `w`: it holds the middle position once sorted.
pub open spec fn is_median(w: Seq<u64>, x: u64) -> bool {
    w.contains(x) && count_below(w, x, true) <= w.len() / 2 < count_below(w, x, false)
}

/// Number and sum of the samples in `[lo, hi]`.
pub open spec fn band(w: Seq<u64>, lo: int, hi: int) -> (nat, int)
    decreases w.len(),
{
    if w.len() == 0 {
        (0, 0)
    } else {
        let (c, t) = band(w.drop_last(), lo, hi);
        if lo <= w.last() <= hi { (c + 1, t + w.last()) } else { (c, t) }
    }
}

/// Index of the first sample that is a median of `w`, if any.
pub open spec fn first_median(w: Seq<u64>) -> Option<int> {
    if exists|i: int| 0 <= i < w.len() && is_median(w, w[i]) {
        Some(choose|i: int| 0 <= i < w.len() && is_median(w, w[i]) && forall|j: int| 0 <= j < i ==> !is_median(w, #[trigger] w[j]))
    } else {
        None
    }
}

/// Mean of the samples within a factor of eight of the median; 0 when fewer than
/// `MEDIAN_LIMIT` samples qualify.
#[verifier::opaque]
pub open spec fn filtered_mean(w: Seq<u64>) -> u64 {
    match first_median(w) {
        None => 0,
        Some(i) => {
            let m = w[i];
            let (c, t) = band(w, (m / 8) as int, m as int * 8);
            if c < MEDIAN_LIMIT { 0 } else { (t / c as int) as u64 }
        },
    }
}

fn count_samples(w: &Vec<u64>, x: u64, strict: bool) -> (r: usize)
    ensures
        r == count_below(w@, x, strict),
{
    let mut c: usize = 0;
    let mut i: usize = 0;
    while i < w.len()
        invariant
            0 <= i <= w@.len(),
            c == count_below(w@.take(i as int), x, strict),
            c <= i,
        decreases w@.len() - i,
    {
        proof {
            assert(w@.take(i + 1).drop_last() =~= w@.take(i as int));
        }
        if (strict && w[i] < x) || (!strict && w[i] <= x) {
            c = c + 1;
        }
        i = i + 1;
    }
    proof {
        assert(w@.take(w@.len() as int) =~= w@);
    }
    c
}

fn median_filter(w: &Vec<u64>) -> (r: u64)
    ensures
        r == filtered_mean(w@),
{
    proof {
        reveal(filtered_mean);
    }
    let n = w.len();
    let mut i: usize = 0;
    while i < n
        invariant
            0 <= i <= n,
            n == w@.len(),
            forall|j: int| 0 <= j < i ==> !is_median(w@, #[trigger] w@[j]),
        decreases n - i,
    {
        let x = w[i];
        let below = count_samples(w, x, true);
        let upto = count_samples(w, x, false);
        if below <= n / 2 && n / 2 < upto {
            proof {
                assert(w@.contains(x));
                assert(is_median(w@, w@[i as int]));
                let c = first_median(w@).unwrap();
                assert(c == i as int) by {
                    if c < i { assert(!is_median(w@, w@[c])); }
                    if c > i { }
                }
            }
            let lo: u64 = x / 8;
            let hi: u128 = x as u128 * 8;
            let mut c: u64 = 0;
            let mut t: u128 = 0;
            let mut k: usize = 0;
            while k < n
                invariant
                    0 <= k <= n,
                    n == w@.len(),
                    hi == x as int * 8,
                    lo == x / 8,
                    (c as nat, t as int) == band(w@.take(k as int), (x / 8) as int, x as int * 8),
                    c <= k,
                    t <= c * 0xffff_ffff_ffff_ffff,
                decreases n - k,
            {
                proof {
                    assert(w@.take(k + 1).drop_last() =~= w@.take(k as int));
                    assert(w@.take(k + 1).last() == w@[k as int]);
                }
                let v = w[k];
                let ghost prev = band(w@.take(k as int), (x / 8) as int, x as int * 8);
                proof {
                    let lo_i = (x / 8) as int;
                    let hi_i = x as int * 8;
                    assert(band(w@.take(k + 1), lo_i, hi_i) == if lo_i <= v && v <= hi_i {
                        (prev.0 + 1, prev.1 + v)
                    } else {
                        prev
                    });
                }
                if lo <= v && (v as u128) <= hi {
                    proof {
                        assert(t + v <= (c + 1) * 0xffff_ffff_ffff_ffff) by (nonlinear_arith)
                            requires t <= c * 0xffff_ffff_ffff_ffff, v <= 0xffff_ffff_ffff_ffff;
                        assert(c + 1 <= 0xffff_ffff_ffff_ffff);
                    }
                    c = c + 1;
                    t = t + v as u128;
                }
                k = k + 1;
            }
            proof {
                assert(w@.take(n as int) =~= w@);
            }
            proof {
                reveal(filtered_mean);
            }
            if (c as usize) < MEDIAN_LIMIT {
                return 0;
            }
            proof {
                assert((t as int) / (c as int) <= 0xffff_ffff_ffff_ffff) by (nonlinear_arith)
                    requires t <= c * 0xffff_ffff_ffff_ffff, c > 0;
            }
            return (t / c as u128) as u64;
        }
        i = i + 1;
    }
    proof {
        reveal(filtered_mean);
    }
    0
}

} // verus!
