use vstd::prelude::*;
use crate::packet::control::Ack;
use crate::packet::data::DataPacket;
use crate::recv_list::{proposal, recv_index, RecvBackerView, RecvList};
use crate::recv_buffer::{ack_answer, assembled, block_index, delivers, BlockState};
use crate::packet::data::decompressed;
use crate::utils::covered;
use crate::utils::{seq_before, MessageNumber, SequenceNumber, SequenceRange};
use crate::window::time_window::filtered_mean;

verus! {

/// The receive side as the core sees it. Callers that share it between threads
/// hold it behind one lock.
pub struct RecvQueue {
    list: RecvList,
}

impl View for RecvQueue {
    type V = Seq<(u16, RecvBackerView)>;

    closed spec fn view(&self) -> Seq<(u16, RecvBackerView)> {
        self.list@
    }
}

impl RecvQueue {
    pub closed spec fn wf(&self) -> bool {
        self.list.wf()
    }

    pub fn new() -> (r: Self)
        ensures
            r.wf(),
            r@.len() == 0,
    {
        RecvQueue { list: RecvList::new() }
    }

    pub fn register_connection(&mut self, socket_id: u16, partner_isn: SequenceNumber, now: u64)
        requires
            old(self).wf(),
            partner_isn.wf(),
        ensures
            final(self).wf(),
            recv_index(final(self)@, socket_id) >= 0,
            final(self)@[recv_index(final(self)@, socket_id)].1.data.last_seq == partner_isn,
    {
        self.list.register_connection(socket_id, partner_isn, now);
    }

    pub fn drop_msg(&mut self, socket_id: u16, msg_no: MessageNumber, range: SequenceRange)
        requires
            old(self).wf(),
            range.wf(),
        ensures
            final(self).wf(),
            recv_index(old(self)@, socket_id) < 0 ==> final(self)@ == old(self)@,
            recv_index(old(self)@, socket_id) >= 0 ==> ({
                let k = recv_index(old(self)@, socket_id);
                let o = old(self)@[k].1.data;
                let n = final(self)@[k].1.data;
                final(self)@.len() == old(self)@.len() && final(self)@[k].0 == socket_id && (o.last_msg == msg_no ==> n.last_msg.0 == (msg_no.0 + 1) % 0x2000)
                    && (o.last_msg != msg_no ==> n.last_msg == o.last_msg) && n.last_ack == o.last_ack
            }),
    {
        self.list.drop_msg(socket_id, msg_no, range);
    }

    /// Files a data packet and returns the loss list of its connection, cut to fit
    /// one loss packet at segment size `mss`.
    pub fn process_data(&mut self, packet: DataPacket, mss: u16, now: u64) -> (r: Vec<SequenceRange>)
        requires
            old(self).wf(),
            packet.wf(),
        ensures
            final(self).wf(),
            recv_index(old(self)@, packet.dst_socket_id) < 0 ==> final(self)@ == old(self)@,
            recv_index(old(self)@, packet.dst_socket_id) >= 0 ==> ({
                let k = recv_index(old(self)@, packet.dst_socket_id);
                let o = old(self)@[k].1;
                let n = final(self)@[k].1;
                let start = SequenceNumber(((o.data.last_seq.0 + 1) % 0x8000) as u16);
                let skipped = SequenceRange { start, stop: SequenceNumber(((packet.seq_no.0 + 0xffff) % 0x8000) as u16) };
                &&& final(self)@.len() == old(self)@.len()
                &&& final(self)@[k].0 == packet.dst_socket_id
                &&& !covered(n.loss, packet.seq_no.0 as int)
                &&& forall|x: int| #[trigger] covered(n.loss, x) == ((covered(o.loss, x) || (seq_before(start.0 as int, packet.seq_no.0 as int)
                    && skipped.has(x))) && x != packet.seq_no.0)
                &&& n.data.last_seq == (if seq_before(o.data.last_seq.0 as int, packet.seq_no.0 as int) { packet.seq_no } else { o.data.last_seq })
                &&& n.data.last_msg == o.data.last_msg
            }),
            4 * r@.len() <= mss / 2,
            recv_index(old(self)@, packet.dst_socket_id) < 0 ==> r@.len() == 0,
            recv_index(old(self)@, packet.dst_socket_id) >= 0 ==> ({
                let l = final(self)@[recv_index(old(self)@, packet.dst_socket_id)].1.loss;
                r@ == l.take(r@.len() as int) && r@.len() <= l.len() && (r@.len() == l.len() || 4 * (r@.len() + 1) > mss / 2)
            }),
    {
        let socket_id = packet.dst_socket_id;
        self.list.add_data(packet, now);
        let r = self.list.report_loss(socket_id, mss);
        proof {
            if recv_index(old(self)@, socket_id) >= 0 {
                self.list.lemma_index_at(recv_index(old(self)@, socket_id), socket_id);
            }
        }
        r
    }

    pub fn next_ack(&mut self, socket_id: u16, now: u64) -> (r: Option<(SequenceNumber, SequenceNumber)>)
        requires
            old(self).wf(),
        ensures
            final(self).wf(),
            recv_index(old(self)@, socket_id) < 0 ==> r.is_none() && final(self)@ == old(self)@,
            recv_index(old(self)@, socket_id) >= 0 ==> ({
                let k = recv_index(old(self)@, socket_id);
                let o = old(self)@[k].1.data;
                let n = final(self)@[k].1.data;
                final(self)@.len() == old(self)@.len() && final(self)@[k].0 == socket_id
                    && !seq_before(n.last_ack.0 as int, o.last_ack.0 as int)
                    && n.blocks == o.blocks
                    && exists|p: SequenceNumber|
                        #[trigger] proposal(old(self)@[k].1, p) && r.is_some() == ack_answer(o, p, now) && (r.is_some() ==> r == Some((p, o.last_seq)))
            }),
    {
        self.list.next_ack(socket_id, now)
    }

    pub fn sent_ack(&mut self, socket_id: u16, ack_no: SequenceNumber, now: u64)
        requires
            old(self).wf(),
            ack_no.wf(),
        ensures
            final(self).wf(),
            recv_index(old(self)@, socket_id) < 0 ==> final(self)@ == old(self)@,
            recv_index(old(self)@, socket_id) >= 0 ==> ({
                let k = recv_index(old(self)@, socket_id);
                let o = old(self)@[k].1.data;
                let n = final(self)@[k].1.data;
                final(self)@.len() == old(self)@.len() && final(self)@[k].0 == socket_id && !seq_before(n.last_ack.0 as int, o.last_ack.0 as int) && n.last_ack_time == now
                    && n.blocks == o.blocks
            }),
    {
        self.list.sent_ack(socket_id, ack_no, now);
    }

    /// `(rtt, rtt_var, buffered messages, receive speed, bandwidth)` of `socket_id`.
    pub fn time_data(&self, socket_id: u16) -> (r: (u64, u64, usize, u64, u64))
        requires
            self.wf(),
        ensures
            recv_index(self@, socket_id) >= 0 ==> r == (
                self@[recv_index(self@, socket_id)].1.data.congestion.rtt,
                self@[recv_index(self@, socket_id)].1.data.congestion.rtt_var,
                self@[recv_index(self@, socket_id)].1.data.blocks.len() as usize,
                filtered_mean(self@[recv_index(self@, socket_id)].1.time.packet_windows),
                filtered_mean(self@[recv_index(self@, socket_id)].1.time.probe_windows),
            ),
            recv_index(self@, socket_id) < 0 ==> r == (0u64, 0u64, 0usize, 0u64, 0u64),
    {
        let (rtt, rtt_var) = self.list.rtt(socket_id);
        (rtt, rtt_var, self.list.buffer_size(socket_id), self.list.recv_speed(socket_id), self.list.bandwidth(socket_id))
    }

    pub fn remove(&mut self, socket_id: u16)
        requires
            old(self).wf(),
        ensures
            final(self).wf(),
            recv_index(old(self)@, socket_id) >= 0 ==> final(self)@ == old(self)@.remove(recv_index(old(self)@, socket_id)),
            recv_index(old(self)@, socket_id) < 0 ==> final(self)@ == old(self)@,
    {
        self.list.remove_connection(socket_id);
    }

    /// The next complete message of `socket_id`, in message order.
    pub fn read_data(&mut self, socket_id: u16) -> (r: Option<Vec<u8>>)
        requires
            old(self).wf(),
        ensures
            final(self).wf(),
            recv_index(old(self)@, socket_id) < 0 ==> r.is_none(),
            recv_index(old(self)@, socket_id) >= 0 ==> ({
                let k = recv_index(old(self)@, socket_id);
                let o = old(self)@[k].1.data;
                let n = final(self)@[k].1.data;
                let bi = block_index(o.blocks, o.last_msg);
                &&& final(self)@.len() == old(self)@.len()
                &&& final(self)@[k].0 == socket_id
                &&& if bi >= 0 && o.blocks[bi].state == BlockState::Complete {
                    r.is_some() && r.unwrap()@ == decompressed(assembled(o.blocks[bi].data)) && delivers(o, n, o.last_msg)
                } else {
                    r.is_none() && n == o
                }
            }),
    {
        self.list.pop_data(socket_id)
    }

    pub fn loss(&mut self, socket_id: u16, loss_ranges: &Vec<SequenceRange>)
        requires
            old(self).wf(),
        ensures
            final(self).wf(),
            recv_index(old(self)@, socket_id) < 0 ==> final(self)@ == old(self)@,
            recv_index(old(self)@, socket_id) >= 0 ==> ({
                let k = recv_index(old(self)@, socket_id);
                let o = old(self)@[k].1.data;
                let n = final(self)@[k].1.data;
                final(self)@.len() == old(self)@.len() && final(self)@[k].0 == socket_id && n.blocks == o.blocks && n.last_seq == o.last_seq && n.last_ack == o.last_ack
            }),
    {
        self.list.loss(socket_id, loss_ranges);
    }

    pub fn ack_square(&mut self, socket_id: u16, ack_no: SequenceNumber, now: u64)
        requires
            old(self).wf(),
            ack_no.wf(),
        ensures
            final(self).wf(),
            recv_index(old(self)@, socket_id) < 0 ==> final(self)@ == old(self)@,
            recv_index(old(self)@, socket_id) >= 0 ==> ({
                let k = recv_index(old(self)@, socket_id);
                let o = old(self)@[k].1.data;
                let n = final(self)@[k].1.data;
                final(self)@.len() == old(self)@.len() && final(self)@[k].0 == socket_id && !seq_before(n.last_ack_square.0 as int, o.last_ack_square.0 as int) && n.last_ack == o.last_ack
            }),
    {
        self.list.ack_square(socket_id, ack_no, now);
    }

    pub fn delay(&self, socket_id: u16) -> (r: u64)
        requires
            self.wf(),
        ensures
            recv_index(self@, socket_id) < 0 ==> r == 0,
            recv_index(self@, socket_id) >= 0 ==> r == self@[recv_index(self@, socket_id)].1.data.congestion.pkt_send_period,
    {
        self.list.delay(socket_id)
    }

    pub fn on_pkt(&mut self, socket_id: u16)
        requires
            old(self).wf(),
        ensures
            final(self).wf(),
            recv_index(old(self)@, socket_id) < 0 ==> final(self)@ == old(self)@,
            recv_index(old(self)@, socket_id) >= 0 ==> ({
                let k = recv_index(old(self)@, socket_id);
                let o = old(self)@[k].1.data;
                let n = final(self)@[k].1.data;
                final(self)@.len() == old(self)@.len() && final(self)@[k].0 == socket_id && n.congestion.pkt_count == o.congestion.pkt_count.saturating_add(1) && n.blocks == o.blocks
            }),
    {
        self.list.on_pkt(socket_id);
    }

    pub fn on_ack(&mut self, socket_id: u16, ack_no: SequenceNumber, ack: Ack, now: u64)
        requires
            old(self).wf(),
            ack_no.wf(),
        ensures
            final(self).wf(),
            recv_index(old(self)@, socket_id) < 0 ==> final(self)@ == old(self)@,
            recv_index(old(self)@, socket_id) >= 0 ==> ({
                let k = recv_index(old(self)@, socket_id);
                let o = old(self)@[k].1.data;
                let n = final(self)@[k].1.data;
                final(self)@.len() == old(self)@.len() && final(self)@[k].0 == socket_id && n.blocks == o.blocks
            }),
    {
        self.list.on_ack(socket_id, ack_no, ack, now);
    }
}

} // verus!
