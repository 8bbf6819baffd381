use vstd::prelude::*;
use crate::loss_list::LossBuffer;
use crate::packet::control::Ack;
use crate::packet::data::DataPacket;
use crate::recv_buffer::{ack_answer, assembled, block_index, delivers, BlockState, RecvBuffer, RecvBufferView};
use crate::packet::data::decompressed;
use crate::utils::{covered, seq_before, MessageNumber, SequenceNumber, SequenceRange};
use crate::window::time_window::{filtered_mean, TimeWindow, TimeWindowView};

verus! {

/// One connection's incoming state.
pub struct RecvBacker {
    data_buffer: RecvBuffer,
    loss_buffer: LossBuffer,
    time_window: TimeWindow,
}

pub struct RecvBackerView {
    pub data: RecvBufferView,
    pub loss: Seq<SequenceRange>,
    pub time: TimeWindowView,
}

impl View for RecvBacker {
    type V = RecvBackerView;

    closed spec fn view(&self) -> RecvBackerView {
        RecvBackerView { data: self.data_buffer@, loss: self.loss_buffer@, time: self.time_window@ }
    }
}

impl RecvBacker {
    pub closed spec fn wf(&self) -> bool {
        self.data_buffer.wf() && self.loss_buffer.wf() && self.time_window.wf()
    }
}

/// The incoming state of every connection, keyed by socket id.
pub struct RecvList {
    connections: Vec<(u16, RecvBacker)>,
}

impl View for RecvList {
    type V = Seq<(u16, RecvBackerView)>;

    closed spec fn view(&self) -> Seq<(u16, RecvBackerView)> {
        self.connections@.map_values(|c: (u16, RecvBacker)| (c.0, c.1@))
    }
}

/// The acknowledgement to propose: the lowest start of the loss list, or one past
/// the last sequence number seen when nothing is lost.
pub open spec fn proposal(b: RecvBackerView, p: SequenceNumber) -> bool {
    if b.loss.len() == 0 {
        p.0 == (b.data.last_seq.0 + 1) % 0x8000
    } else {
        exists|q: int|
            0 <= q < b.loss.len() && b.loss[q].start == p && forall|j: int| 0 <= j < b.loss.len() ==> b.loss[q].start.0 <= (#[trigger] b.loss[j]).start.0
    }
}

/// Position of socket `id`, or -1.
pub open spec fn recv_index(cs: Seq<(u16, RecvBackerView)>, id: u16) -> int {
    if exists|k: int| 0 <= k < cs.len() && cs[k].0 == id {
        choose|k: int| 0 <= k < cs.len() && cs[k].0 == id
    } else {
        -1
    }
}

impl RecvList {
    pub closed spec fn wf(&self) -> bool {
        &&& forall|i: int| 0 <= i < self.connections@.len() ==> (#[trigger] self.connections@[i]).1.wf()
        &&& forall|i: int, j: int|
            0 <= i < self.connections@.len() && 0 <= j < self.connections@.len() && i != j ==> self.connections@[i].0 != self.connections@[j].0
    }

    pub fn new() -> (r: Self)
        ensures
            r.wf(),
            r@.len() == 0,
    {
        let r = RecvList { connections: Vec::new() };
        proof {
            assert(r@ =~= Seq::empty());
        }
        r
    }

    fn find(&self, id: u16) -> (r: Option<usize>)
        requires
            self.wf(),
        ensures
            match r {
                Some(k) => (k as int) < self@.len() && self@[k as int].0 == id && recv_index(self@, id) == k as int
                    && self.connections@[k as int].1.wf(),
                None => recv_index(self@, id) == -1,
            },
    {
        let mut i: usize = 0;
        while i < self.connections.len()
            invariant
                0 <= i <= self@.len(),
                self.wf(),
                forall|j: int| 0 <= j < i ==> self@[j].0 != id,
            decreases self@.len() - i,
        {
            if self.connections[i].0 == id {
                proof {
                    assert(self@[i as int].0 == id);
                    let c = recv_index(self@, id);
                    assert(self.connections@[c].0 == self.connections@[i as int].0);
                }
                return Some(i);
            }
            i = i + 1;
        }
        None
    }

    pub proof fn lemma_index_at(&self, k: int, id: u16)
        requires
            self.wf(),
            0 <= k < self@.len(),
            self@[k].0 == id,
        ensures
            recv_index(self@, id) == k,
    {
        let c = recv_index(self@, id);
        assert(self.connections@[c].0 == self.connections@[k].0);
    }

    fn take(&mut self, k: usize) -> (r: RecvBacker)
        requires
            old(self).wf(),
            k < old(self)@.len(),
        ensures
            r.wf(),
            r@ == old(self)@[k as int].1,
            final(self).connections@ == old(self).connections@.remove(k as int),
            forall|i: int| 0 <= i < final(self).connections@.len() ==> (#[trigger] final(self).connections@[i]).1.wf(),
            forall|i: int, j: int|
                0 <= i < final(self).connections@.len() && 0 <= j < final(self).connections@.len() && i != j ==> final(self).connections@[i].0 != final(self).connections@[j].0,
            forall|i: int| 0 <= i < final(self).connections@.len() ==> final(self).connections@[i].0 != old(self).connections@[k as int].0,
    {
        let ghost s = self.connections@;
        let (_, b) = self.connections.remove(k);
        proof {
            assert(s[k as int].1.wf());
            let rest = self.connections@;
            assert forall|i: int| 0 <= i < rest.len() implies (#[trigger] rest[i]).1.wf() by {
                if i < k { assert(rest[i] == s[i]); } else { assert(rest[i] == s[i + 1]); }
            }
            assert forall|i: int, j: int| 0 <= i < rest.len() && 0 <= j < rest.len() && i != j implies rest[i].0 != rest[j].0 by {
                let ii = if i < k { i } else { i + 1 };
                let jj = if j < k { j } else { j + 1 };
                assert(rest[i] == s[ii]);
                assert(rest[j] == s[jj]);
            }
            assert forall|i: int| 0 <= i < rest.len() implies rest[i].0 != s[k as int].0 by {
                let ii = if i < k { i } else { i + 1 };
                assert(rest[i] == s[ii]);
            }
        }
        b
    }

    fn put(&mut self, k: usize, id: u16, b: RecvBacker)
        requires
            k <= old(self).connections@.len(),
            b.wf(),
            forall|i: int| 0 <= i < old(self).connections@.len() ==> (#[trigger] old(self).connections@[i]).1.wf(),
            forall|i: int, j: int|
                0 <= i < old(self).connections@.len() && 0 <= j < old(self).connections@.len() && i != j ==> old(self).connections@[i].0 != old(self).connections@[j].0,
            forall|i: int| 0 <= i < old(self).connections@.len() ==> old(self).connections@[i].0 != id,
        ensures
            final(self).wf(),
            final(self)@ == old(self)@.insert(k as int, (id, b@)),
    {
        let ghost before = self.connections@;
        self.connections.insert(k, (id, b));
        proof {
            assert(self@ =~= old(self)@.insert(k as int, (id, b@)));
            assert forall|i: int| 0 <= i < self.connections@.len() implies (#[trigger] self.connections@[i]).1.wf() by {
                if i < k { assert(self.connections@[i] == before[i]); }
                else if i > k { assert(self.connections@[i] == before[i - 1]); }
            }
            assert forall|i: int, j: int|
                0 <= i < self.connections@.len() && 0 <= j < self.connections@.len() && i != j implies self.connections@[i].0 != self.connections@[j].0 by {
                let ii = if i < k { i } else { i - 1 };
                let jj = if j < k { j } else { j - 1 };
                if i != k && j != k {
                    assert(self.connections@[i] == before[ii]);
                    assert(self.connections@[j] == before[jj]);
                } else if i == k {
                    assert(self.connections@[j] == before[jj]);
                } else {
                    assert(self.connections@[i] == before[ii]);
                }
            }
        }
    }

    /// Adds (or replaces) the state of `socket_id`; the peer numbers from `partner_isn`.
    pub fn register_connection(&mut self, socket_id: u16, partner_isn: SequenceNumber, now: u64)
        requires
            old(self).wf(),
            partner_isn.wf(),
        ensures
            final(self).wf(),
            recv_index(final(self)@, socket_id) >= 0,
            final(self)@[recv_index(final(self)@, socket_id)].1.data.last_seq == partner_isn,
            final(self)@[recv_index(final(self)@, socket_id)].1.loss.len() == 0,
    {
        let backer = RecvBacker {
            data_buffer: RecvBuffer::new(partner_isn, now),
            loss_buffer: LossBuffer::new(),
            time_window: TimeWindow::new(now),
        };
        let k = match self.find(socket_id) {
            Some(k) => {
                let _ = self.take(k);
                k
            },
            None => {
                proof {
                    assert forall|i: int| 0 <= i < self.connections@.len() implies self.connections@[i].0 != socket_id by {
                        if self.connections@[i].0 == socket_id { assert(self@[i].0 == socket_id); }
                    }
                }
                self.connections.len()
            },
        };
        self.put(k, socket_id, backer);
        proof {
            assert(self@[k as int].0 == socket_id);
            let c = recv_index(self@, socket_id);
            assert(self.connections@[c].0 == self.connections@[k as int].0);
        }
    }

    pub fn remove_connection(&mut self, socket_id: u16)
        requires
            old(self).wf(),
        ensures
            final(self).wf(),
            recv_index(old(self)@, socket_id) >= 0 ==> final(self)@ == old(self)@.remove(recv_index(old(self)@, socket_id)),
            recv_index(old(self)@, socket_id) < 0 ==> final(self)@ == old(self)@,
    {
        match self.find(socket_id) {
            Some(k) => {
                let ghost s0 = self@;
                let _ = self.take(k);
                proof {
                    assert(self@ =~= s0.remove(k as int));
                }
            },
            None => {},
        }
    }

    /// Files a data packet with the connection it is addressed to: updates the
    /// arrival timing, hands it to the receive buffer, takes its number off the loss
    /// list and adds the numbers it skipped.
    pub fn add_data(&mut self, packet: DataPacket, now: u64)
        requires
            old(self).wf(),
            packet.wf(),
        ensures
            final(self).wf(),
            recv_index(old(self)@, packet.dst_socket_id) < 0 ==> final(self)@ == old(self)@,
            recv_index(old(self)@, packet.dst_socket_id) >= 0 ==> ({
                let k = recv_index(old(self)@, packet.dst_socket_id);
                let o = old(self)@[k].1;
                let n = final(self)@[k].1;
                let start = SequenceNumber(((o.data.last_seq.0 + 1) % 0x8000) as u16);
                let skipped = SequenceRange { start, stop: SequenceNumber(((packet.seq_no.0 + 0xffff) % 0x8000) as u16) };
                &&& final(self)@.len() == old(self)@.len()
                &&& final(self)@[k].0 == packet.dst_socket_id
                &&& !covered(n.loss, packet.seq_no.0 as int)
                &&& forall|x: int| #[trigger] covered(n.loss, x) == ((covered(o.loss, x) || (seq_before(start.0 as int, packet.seq_no.0 as int)
                    && skipped.has(x))) && x != packet.seq_no.0)
                &&& n.data.last_seq == (if seq_before(o.data.last_seq.0 as int, packet.seq_no.0 as int) { packet.seq_no } else { o.data.last_seq })
                &&& n.data.last_msg == o.data.last_msg
            }),
    {
        let socket_id = packet.dst_socket_id;
        let seq_no = packet.seq_no;
        match self.find(socket_id) {
            Some(k) => {
                let mut b = self.take(k);
                b.time_window.on_packet_arrival(now);
                if seq_no.probe_start() {
                    b.time_window.probe_start(now);
                } else if seq_no.probe_stop() {
                    b.time_window.probe_stop(now);
                }
                let skip = b.data_buffer.add(packet);
                b.loss_buffer.remove(seq_no);
                match skip {
                    Some(range) => {
                        proof {
                            assert(!range.has(seq_no.0 as int));
                        }
                        b.loss_buffer.insert(range);
                    },
                    None => {},
                }
                self.put(k, socket_id, b);
                proof {
                    assert(self@[k as int].1 == b@);
                }
            },
            None => {},
        }
    }

    /// The loss list of `socket_id`, cut to fit one loss packet at segment size `mss`.
    pub fn report_loss(&self, socket_id: u16, mss: u16) -> (r: Vec<SequenceRange>)
        requires
            self.wf(),
        ensures
            recv_index(self@, socket_id) < 0 ==> r@.len() == 0,
            recv_index(self@, socket_id) >= 0 ==> r@ == self@[recv_index(self@, socket_id)].1.loss.take(r@.len() as int)
                && r@.len() <= self@[recv_index(self@, socket_id)].1.loss.len()
                && (r@.len() == self@[recv_index(self@, socket_id)].1.loss.len() || 4 * (r@.len() + 1) > mss / 2),
            4 * r@.len() <= mss / 2,
    {
        match self.find(socket_id) {
            Some(k) => self.connections[k].1.loss_buffer.encode(mss),
            None => Vec::new(),
        }
    }

    /// The next complete message of `socket_id`, in message order.
    pub fn pop_data(&mut self, socket_id: u16) -> (r: Option<Vec<u8>>)
        requires
            old(self).wf(),
        ensures
            final(self).wf(),
            recv_index(old(self)@, socket_id) < 0 ==> r.is_none(),
            recv_index(old(self)@, socket_id) >= 0 ==> ({
                let k = recv_index(old(self)@, socket_id);
                let o = old(self)@[k].1.data;
                let n = final(self)@[k].1.data;
                let bi = block_index(o.blocks, o.last_msg);
                &&& final(self)@.len() == old(self)@.len()
                &&& final(self)@[k].0 == socket_id
                &&& if bi >= 0 && o.blocks[bi].state == BlockState::Complete {
                    r.is_some() && r.unwrap()@ == decompressed(assembled(o.blocks[bi].data)) && delivers(o, n, o.last_msg)
                } else {
                    r.is_none() && n == o
                }
            }),
    {
        match self.find(socket_id) {
            Some(k) => {
                let mut b = self.take(k);
                let r = b.data_buffer.pop();
                self.put(k, socket_id, b);
                proof {
                    assert(self@[k as int].1 == b@);
                }
                r
            },
            None => None,
        }
    }

    /// The peer gave up message `msg_no` on `socket_id` (see `RecvBuffer::drop_msg`).
    pub fn drop_msg(&mut self, socket_id: u16, msg_no: MessageNumber, range: SequenceRange)
        requires
            old(self).wf(),
            range.wf(),
        ensures
            final(self).wf(),
            recv_index(old(self)@, socket_id) < 0 ==> final(self)@ == old(self)@,
            recv_index(old(self)@, socket_id) >= 0 ==> ({
                let k = recv_index(old(self)@, socket_id);
                let o = old(self)@[k].1.data;
                let n = final(self)@[k].1.data;
                final(self)@.len() == old(self)@.len() && final(self)@[k].0 == socket_id && (o.last_msg == msg_no ==> n.last_msg.0 == (msg_no.0 + 1) % 0x2000)
                    && (o.last_msg != msg_no ==> n.last_msg == o.last_msg) && n.last_ack == o.last_ack
            }),
    {
        match self.find(socket_id) {
            Some(k) => {
                let mut b = self.take(k);
                b.data_buffer.drop_msg(msg_no, range);
                self.put(k, socket_id, b);
                proof {
                    assert(self@[k as int].1 == b@);
                }
            },
            None => {},
        }
    }

    /// The median-filtered receive speed of `socket_id`; 0 when unknown.
    pub fn recv_speed(&self, socket_id: u16) -> (r: u64)
        requires
            self.wf(),
        ensures
            recv_index(self@, socket_id) < 0 ==> r == 0,
            recv_index(self@, socket_id) >= 0 ==> r == filtered_mean(self@[recv_index(self@, socket_id)].1.time.packet_windows),
    {
        match self.find(socket_id) {
            Some(k) => self.connections[k].1.time_window.receive_speed(),
            None => 0,
        }
    }

    /// The median-filtered bandwidth estimate of `socket_id`; 0 when unknown.
    pub fn bandwidth(&self, socket_id: u16) -> (r: u64)
        requires
            self.wf(),
        ensures
            recv_index(self@, socket_id) < 0 ==> r == 0,
            recv_index(self@, socket_id) >= 0 ==> r == filtered_mean(self@[recv_index(self@, socket_id)].1.time.probe_windows),
    {
        match self.find(socket_id) {
            Some(k) => self.connections[k].1.time_window.bandwidth(),
            None => 0,
        }
    }

    /// Number of messages being assembled on `socket_id`.
    pub fn buffer_size(&self, socket_id: u16) -> (r: usize)
        requires
            self.wf(),
        ensures
            recv_index(self@, socket_id) < 0 ==> r == 0,
            recv_index(self@, socket_id) >= 0 ==> r == self@[recv_index(self@, socket_id)].1.data.blocks.len(),
    {
        match self.find(socket_id) {
            Some(k) => self.connections[k].1.data_buffer.size(),
            None => 0,
        }
    }

    /// Proposes the start of the earliest loss range, or else the cumulative
    /// boundary, and asks the receive buffer whether an ACK is due.
    pub fn next_ack(&mut self, socket_id: u16, now: u64) -> (r: Option<(SequenceNumber, SequenceNumber)>)
        requires
            old(self).wf(),
        ensures
            final(self).wf(),
            recv_index(old(self)@, socket_id) < 0 ==> r.is_none() && final(self)@ == old(self)@,
            recv_index(old(self)@, socket_id) >= 0 ==> ({
                let k = recv_index(old(self)@, socket_id);
                let o = old(self)@[k].1.data;
                let n = final(self)@[k].1.data;
                final(self)@.len() == old(self)@.len() && final(self)@[k].0 == socket_id
                    && !seq_before(n.last_ack.0 as int, o.last_ack.0 as int)
                    && n.blocks == o.blocks
                    && exists|p: SequenceNumber|
                        #[trigger] proposal(old(self)@[k].1, p) && r.is_some() == ack_answer(o, p, now) && (r.is_some() ==> r == Some((p, o.last_seq)))
            }),
    {
        match self.find(socket_id) {
            Some(k) => {
                let mut b = self.take(k);
                let ghost ob = b@;
                let proposed = match b.loss_buffer.first() {
                    Some(range) => {
                        proof {
                            let q = choose|q: int| 0 <= q < b.loss_buffer@.len() && Some(range) == Some(b.loss_buffer@[q]) && forall|j: int| 0 <= j < b.loss_buffer@.len() ==> b.loss_buffer@[q].start.0 <= (#[trigger] b.loss_buffer@[j]).start.0;
                            assert(b.loss_buffer@[q].wf());
                            assert(ob.loss[q].start == range.start);
                            assert(proposal(ob, range.start));
                        }
                        range.start
                    },
                    None => b.data_buffer.next_ack(),
                };
                proof {
                    assert(proposal(ob, proposed));
                }
                let r = b.data_buffer.should_ack(proposed, now);
                self.put(k, socket_id, b);
                proof {
                    assert(self@[k as int].1 == b@);
                }
                r
            },
            None => None,
        }
    }

    pub fn sent_ack(&mut self, socket_id: u16, ack_no: SequenceNumber, now: u64)
        requires
            old(self).wf(),
            ack_no.wf(),
        ensures
            final(self).wf(),
            recv_index(old(self)@, socket_id) < 0 ==> final(self)@ == old(self)@,
            recv_index(old(self)@, socket_id) >= 0 ==> ({
                let k = recv_index(old(self)@, socket_id);
                let o = old(self)@[k].1.data;
                let n = final(self)@[k].1.data;
                final(self)@.len() == old(self)@.len() && final(self)@[k].0 == socket_id && !seq_before(n.last_ack.0 as int, o.last_ack.0 as int) && n.last_ack_time == now
                    && n.blocks == o.blocks
            }),
    {
        match self.find(socket_id) {
            Some(k) => {
                let mut b = self.take(k);
                b.data_buffer.sent_ack(ack_no, now);
                self.put(k, socket_id, b);
                proof {
                    assert(self@[k as int].1 == b@);
                }
            },
            None => {},
        }
    }

    pub fn ack_square(&mut self, socket_id: u16, ack_no: SequenceNumber, now: u64)
        requires
            old(self).wf(),
            ack_no.wf(),
        ensures
            final(self).wf(),
            recv_index(old(self)@, socket_id) < 0 ==> final(self)@ == old(self)@,
            recv_index(old(self)@, socket_id) >= 0 ==> ({
                let k = recv_index(old(self)@, socket_id);
                let o = old(self)@[k].1.data;
                let n = final(self)@[k].1.data;
                final(self)@.len() == old(self)@.len() && final(self)@[k].0 == socket_id && !seq_before(n.last_ack_square.0 as int, o.last_ack_square.0 as int) && n.last_ack == o.last_ack
            }),
    {
        match self.find(socket_id) {
            Some(k) => {
                let mut b = self.take(k);
                b.data_buffer.ack_square(ack_no, now);
                self.put(k, socket_id, b);
                proof {
                    assert(self@[k as int].1 == b@);
                }
            },
            None => {},
        }
    }

    pub fn loss(&mut self, socket_id: u16, loss_ranges: &Vec<SequenceRange>)
        requires
            old(self).wf(),
        ensures
            final(self).wf(),
            recv_index(old(self)@, socket_id) < 0 ==> final(self)@ == old(self)@,
            recv_index(old(self)@, socket_id) >= 0 ==> ({
                let k = recv_index(old(self)@, socket_id);
                let o = old(self)@[k].1.data;
                let n = final(self)@[k].1.data;
                final(self)@.len() == old(self)@.len() && final(self)@[k].0 == socket_id && n.blocks == o.blocks && n.last_seq == o.last_seq && n.last_ack == o.last_ack
            }),
    {
        match self.find(socket_id) {
            Some(k) => {
                let mut b = self.take(k);
                b.data_buffer.loss(loss_ranges);
                self.put(k, socket_id, b);
                proof {
                    assert(self@[k as int].1 == b@);
                }
            },
            None => {},
        }
    }

    pub fn on_pkt(&mut self, socket_id: u16)
        requires
            old(self).wf(),
        ensures
            final(self).wf(),
            recv_index(old(self)@, socket_id) < 0 ==> final(self)@ == old(self)@,
            recv_index(old(self)@, socket_id) >= 0 ==> ({
                let k = recv_index(old(self)@, socket_id);
                let o = old(self)@[k].1.data;
                let n = final(self)@[k].1.data;
                final(self)@.len() == old(self)@.len() && final(self)@[k].0 == socket_id && n.congestion.pkt_count == o.congestion.pkt_count.saturating_add(1) && n.blocks == o.blocks
            }),
    {
        match self.find(socket_id) {
            Some(k) => {
                let mut b = self.take(k);
                b.data_buffer.on_pkt();
                self.put(k, socket_id, b);
                proof {
                    assert(self@[k as int].1 == b@);
                }
            },
            None => {},
        }
    }

    /// The send period of `socket_id`; zero when unknown.
    pub fn delay(&self, socket_id: u16) -> (r: u64)
        requires
            self.wf(),
        ensures
            recv_index(self@, socket_id) < 0 ==> r == 0,
            recv_index(self@, socket_id) >= 0 ==> r == self@[recv_index(self@, socket_id)].1.data.congestion.pkt_send_period,
    {
        match self.find(socket_id) {
            Some(k) => self.connections[k].1.data_buffer.delay(),
            None => 0,
        }
    }

    /// Feeds the figures of an ACK from the peer to the congestion controller.
    pub fn on_ack(&mut self, socket_id: u16, ack_no: SequenceNumber, ack: Ack, now: u64)
        requires
            old(self).wf(),
            ack_no.wf(),
        ensures
            final(self).wf(),
            recv_index(old(self)@, socket_id) < 0 ==> final(self)@ == old(self)@,
            recv_index(old(self)@, socket_id) >= 0 ==> ({
                let k = recv_index(old(self)@, socket_id);
                let o = old(self)@[k].1.data;
                let n = final(self)@[k].1.data;
                final(self)@.len() == old(self)@.len() && final(self)@[k].0 == socket_id && n.blocks == o.blocks
            }),
    {
        match self.find(socket_id) {
            Some(k) => {
                let mut b = self.take(k);
                b.data_buffer.update_rtt(ack.rtt);
                b.data_buffer.update_recv_rate(ack.window);
                b.data_buffer.update_bandwidth(ack.bandwidth);
                b.data_buffer.on_ack(ack_no, now);
                self.put(k, socket_id, b);
                proof {
                    assert(self@[k as int].1 == b@);
                }
            },
            None => {},
        }
    }

    /// `(rtt, rtt_var)` of `socket_id` in microseconds; zeros when unknown.
    pub fn rtt(&self, socket_id: u16) -> (r: (u64, u64))
        requires
            self.wf(),
        ensures
            recv_index(self@, socket_id) < 0 ==> r == (0u64, 0u64),
            recv_index(self@, socket_id) >= 0 ==> r == (self@[recv_index(self@, socket_id)].1.data.congestion.rtt, self@[recv_index(self@, socket_id)].1.data.congestion.rtt_var),
    {
        match self.find(socket_id) {
            Some(k) => self.connections[k].1.data_buffer.rtt(),
            None => (0, 0),
        }
    }
}

} // verus!
