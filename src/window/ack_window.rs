use vstd::prelude::*;
use crate::utils::SequenceNumber;

verus! {

/// A sent acknowledgement awaiting its ACK², stamped with the send time (microseconds).
#[derive(Copy, Clone, Debug)]
pub struct WindowAck {
    pub seq: SequenceNumber,
    pub ack: SequenceNumber,
    pub time: u64,
}

impl WindowAck {
    pub fn new(seq: SequenceNumber, ack: SequenceNumber, now: u64) -> (r: Self)
        ensures
            r == (WindowAck { seq, ack, time: now }),
    {
        WindowAck { seq, ack, time: now }
    }
}

/// Time elapsed since `time` at `now`; the largest value when `time` lies ahead.
pub open spec fn elapsed(time: u64, now: u64) -> u64 {
    if time <= now {
        (now - time) as u64
    } else {
        u64::MAX
    }
}

/// Sent acknowledgements kept for round-trip measurement.
#[derive(Clone, Debug)]
pub struct Window {
    pub acks: Vec<WindowAck>,
    pub timeout: u64,
}

impl Window {
    pub fn new(timeout: u64) -> (r: Self)
        ensures
            r.acks@.len() == 0,
            r.timeout == timeout,
    {
        Window { acks: Vec::new(), timeout }
    }

    /// Forgets the entries older than the timeout (or stamped in the future) and
    /// records a new one.
    pub fn store(&mut self, seq: SequenceNumber, ack: SequenceNumber, now: u64)
        ensures
            final(self).timeout == old(self).timeout,
            final(self).acks@ == old(self).acks@.filter(
                |a: WindowAck| a.time <= now && now - a.time < old(self).timeout,
            ).push(WindowAck { seq, ack, time: now }),
    {
        let ghost pred = |a: WindowAck| a.time <= now && now - a.time < old(self).timeout;
        let mut kept: Vec<WindowAck> = Vec::new();
        let mut i: usize = 0;
        let ghost s = self.acks@;
        while i < self.acks.len()
            invariant
                0 <= i <= s.len(),
                s == self.acks@,
                self.timeout == old(self).timeout,
                s == old(self).acks@,
                pred == (|a: WindowAck| a.time <= now && now - a.time < old(self).timeout),
                kept@ == s.take(i as int).filter(pred),
            decreases s.len() - i,
        {
            let a = self.acks[i];
            proof {
                reveal(Seq::filter);
                assert(s.take(i + 1).drop_last() =~= s.take(i as int));
                assert(s.take(i + 1).last() == a);
            }
            if a.time <= now && now - a.time < self.timeout {
                kept.push(a);
            }
            i = i + 1;
        }
        proof {
            assert(s.take(s.len() as int) =~= s);
        }
        kept.push(WindowAck::new(seq, ack, now));
        self.acks = kept;
    }

    /// Removes every entry for `seq` and returns the longest time elapsed since one
    /// of them was stored (zero when none); `ack` takes the acknowledgement number of
    /// that entry.
    pub fn acknowledge(&mut self, seq: SequenceNumber, ack: &mut SequenceNumber, now: u64) -> (r: u64)
        ensures
            final(self).timeout == old(self).timeout,
            final(self).acks@ == old(self).acks@.filter(|a: WindowAck| a.seq != seq),
            forall|k: int|
                0 <= k < old(self).acks@.len() && (#[trigger] old(self).acks@[k]).seq == seq ==> elapsed(
                    old(self).acks@[k].time,
                    now,
                ) <= r,
            r > 0 ==> exists|k: int|
                0 <= k < old(self).acks@.len() && (#[trigger] old(self).acks@[k]).seq == seq && elapsed(
                    old(self).acks@[k].time,
                    now,
                ) == r && *final(ack) == old(self).acks@[k].ack,
            r == 0 ==> *final(ack) == *old(ack),
    {
        let ghost pred = |a: WindowAck| a.seq != seq;
        let mut kept: Vec<WindowAck> = Vec::new();
        let mut best: u64 = 0;
        let mut i: usize = 0;
        let ghost s = self.acks@;
        while i < self.acks.len()
            invariant
                0 <= i <= s.len(),
                s == self.acks@,
                s == old(self).acks@,
                self.timeout == old(self).timeout,
                pred == (|a: WindowAck| a.seq != seq),
                kept@ == s.take(i as int).filter(pred),
                forall|k: int| 0 <= k < i && (#[trigger] s[k]).seq == seq ==> elapsed(s[k].time, now) <= best,
                best > 0 ==> exists|k: int|
                    0 <= k < i && (#[trigger] s[k]).seq == seq && elapsed(s[k].time, now) == best && *ack == s[k].ack,
                best == 0 ==> *ack == *old(ack),
            decreases s.len() - i,
        {
            let a = self.acks[i];
            proof {
                reveal(Seq::filter);
                assert(s.take(i + 1).drop_last() =~= s.take(i as int));
                assert(s.take(i + 1).last() == a);
            }
            if a.seq == seq {
                let t: u64 = if a.time <= now { now - a.time } else { u64::MAX };
                if t > best {
                    best = t;
                    *ack = a.ack;
                    proof {
                        assert(s[i as int].seq == seq && elapsed(s[i as int].time, now) == best);
                    }
                }
            } else {
                kept.push(a);
            }
            i = i + 1;
        }
        proof {
            assert(s.take(s.len() as int) =~= s);
        }
        self.acks = kept;
        best
    }
}

} // verus!
