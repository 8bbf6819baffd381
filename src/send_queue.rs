use vstd::prelude::*;
use crate::packet::Packet;
use crate::loss_list::confirm_all;
use crate::send_buffer::{is_acked, is_live, SendBlockView, SYN_INTERVAL};
use crate::send_list::{sched_time, data_of, has_retransmission, socket_index, SendList, SendListView};
use crate::utils::{covered, seq_before, MessageNumber, SequenceNumber, SequenceRange};

verus! {

/// The send side as the core sees it: acknowledgement checks in front of the
/// per-connection send state. Callers that share it between threads hold it behind
/// one lock.
pub struct SendQueue {
    list: SendList,
}

impl View for SendQueue {
    type V = SendListView;

    closed spec fn view(&self) -> SendListView {
        self.list@
    }
}

impl SendQueue {
    pub closed spec fn wf(&self) -> bool {
        self.list.wf()
    }

    pub fn new() -> (r: Self)
        ensures
            r.wf(),
            r@.connections.len() == 0,
    {
        SendQueue { list: SendList::new() }
    }

    pub fn register_connection(&mut self, socket_id: u16, self_isn: SequenceNumber, now: u64)
        requires
            old(self).wf(),
            self_isn.wf(),
        ensures
            final(self).wf(),
            socket_index(final(self)@.connections, socket_id) >= 0,
            final(self)@.connections[socket_index(final(self)@.connections, socket_id)].1.data.last_seq == self_isn,
    {
        self.list.register_connection(socket_id, self_isn, now);
    }

    /// Stores a message for `socket_id`; returns the number of fragments (0 when the
    /// socket is unknown).
    pub fn push_data(
        &mut self,
        socket_id: u16,
        data: &[u8],
        ttl: u64,
        order: bool,
        partner_id: u16,
        mss: u16,
        now: u64,
        stamp: u16,
    ) -> (r: usize)
        requires
            old(self).wf(),
            mss > 0,
            data@.len() <= u32::MAX,
        ensures
            final(self).wf(),
            socket_index(old(self)@.connections, socket_id) < 0 ==> r == 0 && final(self)@ == old(self)@,
            socket_index(old(self)@.connections, socket_id) >= 0 ==> ({
                let k = socket_index(old(self)@.connections, socket_id);
                let o = old(self)@.connections[k].1;
                let n = final(self)@.connections[k].1;
                final(self)@.connections.len() == old(self)@.connections.len()
                    && final(self)@.connections[k].0 == socket_id
                    && (r == 0 ==> n == o)
                    && n.data.blocks.len() == o.data.blocks.len() + r
                    && n.data.last_seq.0 == (o.data.last_seq.0 + r) % 0x8000
                    && n.loss == o.loss
                    && n.updates == o.updates
                    && final(self)@.waiting == old(self)@.waiting
                    && socket_index(final(self)@.connections, socket_id) == k
            }),
    {
        self.list.insert(socket_id, data, ttl, order, partner_id, mss, now, stamp)
    }

    /// The next packet to send on `socket_id` (see `SendList::pop`).
    pub fn send_data(&mut self, socket_id: u16, now: u64) -> (r: Option<Packet>)
        requires
            old(self).wf(),
        ensures
            final(self).wf(),
            socket_index(old(self)@.connections, socket_id) < 0 ==> r.is_none(),
            socket_index(old(self)@.connections, socket_id) >= 0 ==> ({
                let i = socket_index(old(self)@.connections, socket_id);
                let o = old(self)@.connections[i].1;
                let n = final(self)@.connections[i].1;
                let live = o.data.blocks.filter(is_live(now));
                &&& final(self)@.connections.len() == old(self)@.connections.len()
                &&& final(self)@.connections[i].0 == socket_id
                &&& has_retransmission(o) ==> (exists|k: int|
                    0 <= k < o.data.blocks.len() && covered(o.loss, o.data.blocks[k].packet.seq_no.0 as int)
                        && data_of(r) == Some(#[trigger] o.data.blocks[k].packet))
                        && !covered(n.loss, data_of(r).unwrap().seq_no.0 as int)
                        && n.data == o.data
                &&& !has_retransmission(o) ==> n.loss.len() == 0 && match crate::send_buffer::first_fresh(live) {
                    Some(j) => data_of(r) == Some(live[j].packet),
                    None => r.is_none(),
                }
            }),
    {
        self.list.pop(socket_id, now)
    }

    pub fn next_time(&mut self, now: u64) -> (r: Option<(u16, u64)>)
        requires
            old(self).wf(),
        ensures
            final(self).wf(),
            r.is_none() <==> forall|i: int| 0 <= i < old(self)@.connections.len() ==> (#[trigger] old(self)@.connections[i]).1.updates.len() == 0,
            r.is_none() ==> final(self)@ == old(self)@,
            r.is_some() ==> ({
                let (id, d) = r.unwrap();
                let k = socket_index(old(self)@.connections, id);
                let u = old(self)@.connections[k].1.updates;
                &&& k >= 0
                &&& forall|j: int, q: int|
                    0 <= j < old(self)@.connections.len() && 0 <= q < old(self)@.connections[j].1.updates.len()
                        ==> d <= (#[trigger] old(self)@.connections[j].1.updates[q]).saturating_sub(now)
                &&& exists|q: int|
                    0 <= q < u.len() && d == u[q].saturating_sub(now) && final(self)@.connections[k].1.updates == u.remove(q)
                        && forall|q2: int| 0 <= q2 < u.len() ==> u[q] <= #[trigger] u[q2]
                &&& final(self)@.connections.len() == old(self)@.connections.len()
                &&& final(self)@.connections[k].1.data == old(self)@.connections[k].1.data
                &&& final(self)@.connections[k].1.loss == old(self)@.connections[k].1.loss
            }),
    {
        let r = self.list.next_time(now);
        proof {
            assert(old(self)@ == old(self).list@);
        }
        r
    }

    pub fn loss(&mut self, socket_id: u16, loss: SequenceRange)
        requires
            old(self).wf(),
            loss.wf(),
        ensures
            final(self).wf(),
            socket_index(old(self)@.connections, socket_id) >= 0 && seq_before(
                loss.stop.0 as int,
                old(self)@.connections[socket_index(old(self)@.connections, socket_id)].1.data.last_seq.0 as int,
            ) ==> forall|x: int|
                #[trigger] covered(final(self)@.connections[socket_index(old(self)@.connections, socket_id)].1.loss, x) == (covered(
                    old(self)@.connections[socket_index(old(self)@.connections, socket_id)].1.loss,
                    x,
                ) || loss.has(x)),
    {
        self.list.loss(socket_id, loss);
    }

    /// A cumulative acknowledgement from the peer: ignored when it lies after the last
    /// sequence number sent; otherwise trims the loss list and the send buffer.
    /// Returns whether an ACK² is owed.
    pub fn ack(&mut self, socket_id: u16, ack_no: SequenceNumber, now: u64) -> (r: bool)
        requires
            old(self).wf(),
            ack_no.wf(),
        ensures
            final(self).wf(),
            socket_index(old(self)@.connections, socket_id) < 0 ==> !r,
            socket_index(old(self)@.connections, socket_id) >= 0 && seq_before(
                old(self)@.connections[socket_index(old(self)@.connections, socket_id)].1.data.last_seq.0 as int,
                ack_no.0 as int,
            ) ==> !r && final(self)@ == old(self)@,
            socket_index(old(self)@.connections, socket_id) >= 0 && !seq_before(
                old(self)@.connections[socket_index(old(self)@.connections, socket_id)].1.data.last_seq.0 as int,
                ack_no.0 as int,
            ) ==> ({
                let k = socket_index(old(self)@.connections, socket_id);
                let o = old(self)@.connections[k].1;
                let n = final(self)@.connections[k].1;
                &&& r == (now.saturating_sub(o.data.last_ack_time) > SYN_INTERVAL || ack_no == o.data.last_ack)
                &&& n.data.blocks == o.data.blocks.filter(|b: SendBlockView| !is_acked(ack_no)(b))
                &&& n.data.last_ack == (if r && !seq_before(ack_no.0 as int, o.data.last_ack.0 as int) { ack_no } else { o.data.last_ack })
                &&& n.loss == confirm_all(o.loss, ack_no)
                &&& n.updates == o.updates
            }),
    {
        if !self.list.out_of_sequence(socket_id, ack_no) {
            self.list.remove_confirmed(socket_id, ack_no);
            self.list.ack(socket_id, ack_no, now)
        } else {
            false
        }
    }

    /// The peer's ACK² for `ack_no`; stale ones (before the last acknowledgement)
    /// are ignored.
    pub fn ack_square(&mut self, socket_id: u16, ack_no: SequenceNumber, now: u64)
        requires
            old(self).wf(),
            ack_no.wf(),
        ensures
            final(self).wf(),
            socket_index(old(self)@.connections, socket_id) >= 0 && seq_before(
                ack_no.0 as int,
                old(self)@.connections[socket_index(old(self)@.connections, socket_id)].1.data.last_ack.0 as int,
            ) ==> final(self)@ == old(self)@,
            socket_index(old(self)@.connections, socket_id) >= 0 && !seq_before(
                ack_no.0 as int,
                old(self)@.connections[socket_index(old(self)@.connections, socket_id)].1.data.last_ack.0 as int,
            ) ==> ({
                let k = socket_index(old(self)@.connections, socket_id);
                let o = old(self)@.connections[k].1.data;
                let n = final(self)@.connections[k].1.data;
                &&& n.last_ack_square == (if !seq_before(ack_no.0 as int, o.last_ack_square.0 as int) { ack_no } else { o.last_ack_square })
                &&& n.last_ack == o.last_ack
                &&& n.blocks == o.blocks
            }),
    {
        if !self.list.out_of_sequence_square(socket_id, ack_no) {
            self.list.ack_square(socket_id, ack_no, now);
        }
    }

    pub fn update(&mut self, socket_id: u16, cnt: usize, delay: u64, now: u64)
        requires
            old(self).wf(),
        ensures
            final(self).wf(),
            socket_index(old(self)@.connections, socket_id) < 0 ==> final(self)@ == old(self)@,
            socket_index(old(self)@.connections, socket_id) >= 0 ==> ({
                let k = socket_index(old(self)@.connections, socket_id);
                final(self)@.connections[k].1.updates == old(self)@.connections[k].1.updates + Seq::new(
                    cnt as nat,
                    |i: int| sched_time(now, delay, i),
                ) && final(self)@.waiting == old(self)@.waiting + Seq::new(cnt as nat, |i: int| socket_id)
                    && final(self)@.connections.len() == old(self)@.connections.len()
                    && final(self)@.connections[k].1.data == old(self)@.connections[k].1.data
                    && final(self)@.connections[k].1.loss == old(self)@.connections[k].1.loss
                    && socket_index(final(self)@.connections, socket_id) == k
            }),
    {
        self.list.update(socket_id, cnt, delay, now);
    }

    pub fn remove(&mut self, socket_id: u16)
        requires
            old(self).wf(),
        ensures
            final(self).wf(),
            socket_index(old(self)@.connections, socket_id) >= 0 ==> final(self)@.connections == old(self)@.connections.remove(socket_index(old(self)@.connections, socket_id)),
    {
        self.list.remove_connection(socket_id);
    }

    pub fn last_seq(&self, socket_id: u16) -> (r: Option<SequenceNumber>)
        requires
            self.wf(),
        ensures
            socket_index(self@.connections, socket_id) < 0 ==> r.is_none(),
            socket_index(self@.connections, socket_id) >= 0 ==> r == Some(self@.connections[socket_index(self@.connections, socket_id)].1.data.last_seq),
    {
        self.list.last_seq(socket_id)
    }

    pub fn poll(&self) -> (r: Vec<u16>)
        ensures
            r@ == self@.waiting,
    {
        self.list.poll()
    }

    /// See `SendList::keep_alive`.
    pub fn keep_alive(&mut self, socket_id: u16, now: u64) -> (r: bool)
        requires
            old(self).wf(),
        ensures
            final(self).wf(),
            socket_index(old(self)@.connections, socket_id) < 0 ==> !r,
            socket_index(old(self)@.connections, socket_id) >= 0 ==> r == (
                old(self)@.connections[socket_index(old(self)@.connections, socket_id)].1.data.last_seq
                    == old(self)@.connections[socket_index(old(self)@.connections, socket_id)].1.data.last_ack),
    {
        self.list.keep_alive(socket_id, now)
    }

    /// The fragments of `socket_id` given up since the last call, one entry per run
    /// of consecutive pairs of the same message: the message and the range from the
    /// run's first to its last sequence number.
    pub fn drops(&mut self, socket_id: u16) -> (r: Vec<(MessageNumber, SequenceRange)>)
        requires
            old(self).wf(),
        ensures
            final(self).wf(),
            socket_index(old(self)@.connections, socket_id) < 0 ==> r@.len() == 0,
            socket_index(old(self)@.connections, socket_id) >= 0 ==> r@ == grouped(
                old(self)@.connections[socket_index(old(self)@.connections, socket_id)].1.data.drops,
            ),
    {
        let pairs = self.list.drops(socket_id);
        group_drops(&pairs)
    }
}

/// Runs of consecutive pairs with the same message, as (message, first..last).
pub open spec fn grouped(pairs: Seq<(MessageNumber, SequenceNumber)>) -> Seq<(MessageNumber, SequenceRange)>
    decreases pairs.len(),
{
    if pairs.len() == 0 {
        Seq::empty()
    } else {
        let g = grouped(pairs.drop_last());
        let p = pairs.last();
        if g.len() > 0 && g.last().0 == p.0 {
            g.update(g.len() - 1, (p.0, SequenceRange { start: g.last().1.start, stop: p.1 }))
        } else {
            g.push((p.0, SequenceRange { start: p.1, stop: p.1 }))
        }
    }
}

/// Groups (message, sequence) pairs into runs per message (see `grouped`).
pub fn group_drops(pairs: &Vec<(MessageNumber, SequenceNumber)>) -> (r: Vec<(MessageNumber, SequenceRange)>)
    ensures
        r@ == grouped(pairs@),
{
    let mut out: Vec<(MessageNumber, SequenceRange)> = Vec::new();
    let mut i: usize = 0;
    while i < pairs.len()
        invariant
            0 <= i <= pairs@.len(),
            out@ == grouped(pairs@.take(i as int)),
        decreases pairs@.len() - i,
    {
        let (m, s) = pairs[i];
        proof {
            assert(pairs@.take(i + 1).drop_last() =~= pairs@.take(i as int));
            assert(pairs@.take(i + 1).last() == (m, s));
        }
        let n = out.len();
        if n > 0 && out[n - 1].0 == m {
            let start = out[n - 1].1.start;
            out.set(n - 1, (m, SequenceRange { start, stop: s }));
        } else {
            out.push((m, SequenceRange { start: s, stop: s }));
        }
        i = i + 1;
    }
    proof {
        assert(pairs@.take(pairs@.len() as int) =~= pairs@);
    }
    out
}

} // verus!
