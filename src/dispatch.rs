use vstd::prelude::*;
use crate::congestion::MAX_PACKET_SIZE;
use crate::connection::{NeonConnection, NeonStatus, PeerAddr};
use crate::packet::control::{Ack, ControlType, ControlMeta, ControlPacket, ControlPacketInfo, Discover, Drop, Handshake, Loss, ReqType, FLOW_CONTROL};
use crate::packet::data::DataPacket;
use crate::packet::Packet;
use crate::recv_queue::RecvQueue;
use crate::recv_list::{proposal, recv_index, RecvBackerView};
use crate::recv_buffer::{ack_answer, assembled, block_index, delivers, BlockState};
use crate::packet::data::decompressed;
use crate::send_list::{data_of, has_retransmission, socket_index, SendListView};
use crate::send_buffer::{first_fresh, is_live};
use crate::utils::{covered, seq_before};
use crate::send_buffer::SYN_INTERVAL;
use crate::handshake::cookie_of;
use crate::send_queue::SendQueue;
use crate::utils::{MessageNumber, SequenceNumber, SequenceRange};

verus! {

/// Why an operation on a connection failed.
#[derive(Debug, Clone, Copy, PartialEq, Eq, Structural)]
pub enum CoreError {
    /// The connection is unknown, closed or still being set up.
    NotConnected,
    /// The message cannot be fragmented (no segment size, or too long).
    InvalidInput,
}

/// Packets to hand to the substrate, each with its destination.
pub type Outgoing = Vec<(PeerAddr, Packet)>;

/// Position of socket `id`, or -1.
pub open spec fn conn_index(cs: Seq<(u16, NeonConnection)>, id: u16) -> int {
    if exists|k: int| 0 <= k < cs.len() && cs[k].0 == id {
        choose|k: int| 0 <= k < cs.len() && cs[k].0 == id
    } else {
        -1
    }
}

/// The decisions of one endpoint: connection table, send and receive state, and
/// the packet dispatch. Every operation returns the packets to send; the caller
/// owns the sockets, the clock and the threads. `now` is in microseconds,
/// `now_secs` in seconds since the epoch, `stamp` the 16-bit header timestamp.
pub struct NeonCore {
    connections: Vec<(u16, NeonConnection)>,
    send: SendQueue,
    recv: RecvQueue,
    queued_streams: Vec<u16>,
    next_socket_id: u16,
    local_port: u16,
}

/// `b` continues `a`: packets already queued stay in place.
pub open spec fn extends(a: Seq<(PeerAddr, Packet)>, b: Seq<(PeerAddr, Packet)>) -> bool {
    a.len() <= b.len() && forall|j: int| 0 <= j < a.len() ==> #[trigger] b[j] == a[j]
}

/// Same sockets, statuses and peer addresses, position by position.
pub open spec fn same_shape(a: Seq<(u16, NeonConnection)>, b: Seq<(u16, NeonConnection)>) -> bool {
    a.len() == b.len() && forall|j: int|
        0 <= j < a.len() ==> (#[trigger] b[j]).0 == a[j].0 && b[j].1.status == a[j].1.status && b[j].1.partner_in_addr
            == a[j].1.partner_in_addr && b[j].1.partner_out_addr == a[j].1.partner_out_addr
}

/// The packet is a control packet of type `t`.
pub open spec fn is_ctrl(p: Packet, t: ControlType) -> bool {
    p matches Packet::Control(c) && c.control_type == t
}

/// The packet is a discovery packet of kind `req`.
pub open spec fn is_discover(p: Packet, req: ReqType) -> bool {
    p matches Packet::Control(c) && c.control_type == ControlType::Discover && (c.info matches ControlPacketInfo::Discover(d)
        && d.req_type == req)
}

/// Some packet queued after position `from` goes to `to` and has type `t`.
pub open spec fn sends(out: Seq<(PeerAddr, Packet)>, from: int, to: PeerAddr, t: ControlType) -> bool {
    exists|i: int| from <= i < out.len() && (#[trigger] out[i]).0 == to && is_ctrl(out[i].1, t)
}

/// An acknowledgement `meta` on socket `id` is in sequence and owed an ACK²
/// (see `SendBuffer::ack`).
pub open spec fn ack_owed(sv: SendListView, id: u16, meta: ControlMeta, now: u64) -> bool {
    meta matches ControlMeta::Sequence(a) && socket_index(sv.connections, id) >= 0 && ({
        let o = sv.connections[socket_index(sv.connections, id)].1.data;
        let n = SequenceNumber((a.0 % 0x8000) as u16);
        !seq_before(o.last_seq.0 as int, n.0 as int) && (now.saturating_sub(o.last_ack_time) > SYN_INTERVAL || n == o.last_ack)
    })
}

/// A handshake response carries the cookie derived for socket `id` in the
/// current or the previous minute.
pub open spec fn cookie_ok(id: u16, info: Handshake, now_secs: u64) -> bool {
    info.cookie == cookie_of(MAX_PACKET_SIZE, FLOW_CONTROL, id, now_secs / 60).0 || (now_secs >= 60 && info.cookie == cookie_of(
        MAX_PACKET_SIZE,
        FLOW_CONTROL,
        id,
        ((now_secs - 60) / 60) as u64,
    ).0)
}

/// The packet for socket `id` comes from the peer's known address.
pub open spec fn accepted(cs: Seq<(u16, NeonConnection)>, id: u16, addr: PeerAddr) -> bool {
    conn_index(cs, id) >= 0 && cs[conn_index(cs, id)].1.partner_out_addr == addr
}

/// The code a meta word carries, if it carries one.
pub open spec fn meta_code(m: ControlMeta) -> Option<u16> {
    match m {
        ControlMeta::Other(x) => Some(x),
        _ => None,
    }
}

/// A connection after `next_stream`: an established one is queued.
pub open spec fn queued_entry(e: (u16, NeonConnection)) -> (u16, NeonConnection) {
    if e.1.status == NeonStatus::Established {
        (e.0, NeonConnection { status: NeonStatus::Queued, ..e.1 })
    } else {
        e
    }
}

/// Socket ids of the established connections, in table order.
pub open spec fn established_ids(cs: Seq<(u16, NeonConnection)>) -> Seq<u16>
    decreases cs.len(),
{
    if cs.len() == 0 {
        Seq::empty()
    } else {
        established_ids(cs.drop_last()) + if cs.last().1.status == NeonStatus::Established {
            seq![cs.last().0]
        } else {
            Seq::empty()
        }
    }
}

impl NeonCore {
    pub closed spec fn wf(&self) -> bool {
        &&& self.send.wf()
        &&& self.recv.wf()
        &&& forall|i: int, j: int|
            0 <= i < self.connections@.len() && 0 <= j < self.connections@.len() && i != j ==> self.connections@[i].0 != self.connections@[j].0
    }

    /// The connection table.
    pub closed spec fn conns(&self) -> Seq<(u16, NeonConnection)> {
        self.connections@
    }

    /// Connections waiting to be handed to the application.
    pub closed spec fn queued(&self) -> Seq<u16> {
        self.queued_streams@
    }

    /// The send side of every connection.
    pub closed spec fn send_view(&self) -> SendListView {
        self.send@
    }

    /// The receive side of every connection.
    pub closed spec fn recv_view(&self) -> Seq<(u16, RecvBackerView)> {
        self.recv@
    }

    /// The next socket id to hand out.
    pub closed spec fn next_id(&self) -> u16 {
        self.next_socket_id
    }

    /// A core whose inbound socket listens on `local_port`.
    pub fn new(local_port: u16) -> (r: Self)
        ensures
            r.wf(),
            r.conns().len() == 0,
            r.next_id() == 0,
    {
        NeonCore {
            connections: Vec::new(),
            send: SendQueue::new(),
            recv: RecvQueue::new(),
            queued_streams: Vec::new(),
            next_socket_id: 0,
            local_port,
        }
    }

    /// Hands out a fresh socket id (wrapping).
    pub fn inc_socket_id(&mut self) -> (r: u16)
        requires
            old(self).wf(),
        ensures
            final(self).wf(),
            r == old(self).next_id(),
            final(self).next_id() == r.wrapping_add(1),
            final(self).conns() == old(self).conns(),
    {
        let id = self.next_socket_id;
        self.next_socket_id = id.wrapping_add(1);
        id
    }

    fn find(&self, id: u16) -> (r: Option<usize>)
        requires
            self.wf(),
        ensures
            match r {
                Some(k) => (k as int) < self.conns().len() && self.conns()[k as int].0 == id && conn_index(self.conns(), id) == k as int,
                None => conn_index(self.conns(), id) == -1,
            },
    {
        let mut i: usize = 0;
        while i < self.connections.len()
            invariant
                0 <= i <= self.connections@.len(),
                self.wf(),
                forall|j: int| 0 <= j < i ==> self.connections@[j].0 != id,
            decreases self.connections@.len() - i,
        {
            if self.connections[i].0 == id {
                proof {
                    let c = conn_index(self.conns(), id);
                    assert(self.connections@[c].0 == self.connections@[i as int].0);
                }
                return Some(i);
            }
            i = i + 1;
        }
        None
    }

    /// Replaces the connection at `k`, keeping its socket id.
    fn set_conn(&mut self, k: usize, c: NeonConnection)
        requires
            old(self).wf(),
            k < old(self).conns().len(),
        ensures
            final(self).wf(),
            final(self).conns() == old(self).conns().update(k as int, (old(self).conns()[k as int].0, c)),
            final(self).next_id() == old(self).next_id(),
            final(self).send_view() == old(self).send_view(),
            final(self).recv_view() == old(self).recv_view(),
            final(self).queued() == old(self).queued(),
    {
        let id = self.connections[k].0;
        self.connections.set(k, (id, c));
        proof {
            assert forall|i: int, j: int|
                0 <= i < self.connections@.len() && 0 <= j < self.connections@.len() && i != j implies self.connections@[i].0 != self.connections@[j].0 by {
                assert(old(self).connections@[i].0 == self.connections@[i].0);
                assert(old(self).connections@[j].0 == self.connections@[j].0);
            }
        }
    }

    /// Queues `packet` for the peer of the connection at `k` and notes the send.
    fn emit(&mut self, k: usize, packet: Packet, now: u64, out: &mut Outgoing)
        requires
            old(self).wf(),
            k < old(self).conns().len(),
        ensures
            final(self).wf(),
            final(self).conns().len() == old(self).conns().len(),
            final(self).next_id() == old(self).next_id(),
            final(out)@ == old(out)@.push((old(self).conns()[k as int].1.partner_in_addr, packet)),
            final(self).conns()[k as int].0 == old(self).conns()[k as int].0,
            final(self).conns()[k as int].1 == (NeonConnection { last_update: now, ..old(self).conns()[k as int].1 }),
            forall|j: int| 0 <= j < old(self).conns().len() && j != k ==> #[trigger] final(self).conns()[j] == old(self).conns()[j],
            final(self).send_view() == old(self).send_view(),
            final(self).recv_view() == old(self).recv_view(),
            final(self).queued() == old(self).queued(),
    {
        let mut c = self.connections[k].1;
        out.push((c.partner_in_addr, packet));
        c.sent_packet(now);
        self.set_conn(k, c);
    }

    fn send_ack(&mut self, k: usize, ack_no: SequenceNumber, seq_no: SequenceNumber, now: u64, stamp: u16, out: &mut Outgoing)
        requires
            old(self).wf(),
            k < old(self).conns().len(),
        ensures
            final(self).wf(),
            final(self).conns().len() == old(self).conns().len(),
            final(self).next_id() == old(self).next_id(),
            same_shape(old(self).conns(), final(self).conns()),
            final(self).send_view() == old(self).send_view(),
            extends(old(out)@, final(out)@),
            final(out)@.len() == old(out)@.len() + 1,
            final(out)@.last().0 == old(self).conns()[k as int].1.partner_in_addr,
            is_ctrl(final(out)@.last().1, ControlType::Ack),
    {
        let id = self.connections[k].0;
        let ack_no = SequenceNumber::new(ack_no.0);
        let seq_no = SequenceNumber::new(seq_no.0);
        self.recv.sent_ack(id, ack_no, now);
        let (rtt, rtt_var, buffer, window, bandwidth) = self.recv.time_data(id);
        let b: u16 = if buffer > 0xffff { 0xffff } else { buffer as u16 };
        let (_, p) = self.connections[k].1.create_ack(ack_no, seq_no, rtt, rtt_var, b, window, bandwidth, stamp);
        self.emit(k, p, now, out);
        proof {
            assert(final(out)@.subrange(0, old(out)@.len() as int) =~= old(out)@);
        }
    }

    fn send_discover(&mut self, k: usize, req_type: ReqType, now: u64, stamp: u16, out: &mut Outgoing)
        requires
            old(self).wf(),
            k < old(self).conns().len(),
        ensures
            final(self).wf(),
            final(self).conns().len() == old(self).conns().len(),
            final(self).next_id() == old(self).next_id(),
            same_shape(old(self).conns(), final(self).conns()),
            final(self).send_view() == old(self).send_view(),
            final(self).recv_view() == old(self).recv_view(),
            final(out)@.len() == old(out)@.len() + 1,
            extends(old(out)@, final(out)@),
            final(out)@.last().0 == old(self).conns()[k as int].1.partner_in_addr,
            is_discover(final(out)@.last().1, req_type),
            is_ctrl(final(out)@.last().1, ControlType::Discover),
    {
        let (_, p) = self.connections[k].1.create_discovery(req_type, stamp);
        self.emit(k, p, now, out);
        proof {
            assert(final(out)@.subrange(0, old(out)@.len() as int) =~= old(out)@);
        }
    }

    /// Handles one packet from `addr`. Packets for unknown sockets are dropped unless
    /// they are handshake requests; packets from an address other than the peer's
    /// are dropped unless they are handshakes.
    pub fn process_packet(&mut self, addr: PeerAddr, packet: Packet, now: u64, now_secs: u64, stamp: u16) -> (r: Outgoing)
        requires
            old(self).wf(),
        ensures
            final(self).wf(),
            conn_index(old(self).conns(), packet.socket_id_spec()) < 0 && !packet.is_handshake() ==> r@.len() == 0
                && final(self).conns() == old(self).conns(),
            conn_index(old(self).conns(), packet.socket_id_spec()) >= 0 && !accepted(old(self).conns(), packet.socket_id_spec(), addr)
                && !packet.is_handshake() ==> r@.len() == 0 && final(self).conns() == old(self).conns(),
            packet matches Packet::Control(c) ==> ({
                let id = c.dst_socket_id;
                let k = conn_index(old(self).conns(), id);
                let to = if k >= 0 { old(self).conns()[k].1.partner_in_addr } else { addr };
                &&& accepted(old(self).conns(), id, addr) && (c.info matches ControlPacketInfo::Error(_)) && meta_code(c.meta).is_some()
                    ==> final(self).conns()[k].1.status == NeonStatus::Unhealthy(meta_code(c.meta).unwrap())
                &&& accepted(old(self).conns(), id, addr) && (c.info matches ControlPacketInfo::Discover(_)) && meta_code(c.meta).is_some()
                    ==> final(self).conns()[k].1.status == NeonStatus::Established
                &&& accepted(old(self).conns(), id, addr) && (c.info matches ControlPacketInfo::Discover(d) && d.req_type == ReqType::Connection)
                    && meta_code(c.meta).is_some() ==> exists|i: int|
                    0 <= i < r@.len() && (#[trigger] r@[i]).0 == to && is_discover(r@[i].1, ReqType::Response)
                &&& accepted(old(self).conns(), id, addr) && (c.info matches ControlPacketInfo::Shutdown(_)) ==> conn_index(final(self).conns(), id) < 0
                    && sends(r@, 0, to, ControlType::Shutdown)
                &&& accepted(old(self).conns(), id, addr) && (c.info matches ControlPacketInfo::Ack(_)) && ack_owed(old(self).send_view(), id, c.meta, now)
                    ==> sends(r@, 0, to, ControlType::AckSquare)
                &&& k >= 0 && (c.info matches ControlPacketInfo::Handshake(h) && h.req_type == ReqType::Response && cookie_ok(id, h, now_secs))
                    ==> final(self).conns()[k].1.status == NeonStatus::Negotiating
                &&& k < 0 && (c.info matches ControlPacketInfo::Handshake(h) && h.req_type == ReqType::Connection) ==> r@.len() > 0
                    && exists|j: int|
                    0 <= j < final(self).conns().len() && (#[trigger] final(self).conns()[j]).0 == old(self).next_id()
                        && final(self).conns()[j].1.status == NeonStatus::Negotiating
            }),
    {
        let mut out: Outgoing = Vec::new();
        match packet {
            Packet::Control(c) => self.process_control(addr, c, now, now_secs, stamp, &mut out),
            Packet::Data(d) => self.process_data(addr, d, now, stamp, &mut out),
        }
        out
    }

    fn process_data(&mut self, addr: PeerAddr, packet: DataPacket, now: u64, stamp: u16, out: &mut Outgoing)
        requires
            old(self).wf(),
        ensures
            final(self).wf(),
            conn_index(old(self).conns(), packet.dst_socket_id) < 0 ==> final(out)@ == old(out)@ && final(self).conns() == old(self).conns(),
            conn_index(old(self).conns(), packet.dst_socket_id) >= 0 && !accepted(old(self).conns(), packet.dst_socket_id, addr) ==> final(out)@
                == old(out)@ && final(self).conns() == old(self).conns(),
    {
        let socket_id = packet.dst_socket_id;
        let k = match self.find(socket_id) {
            Some(k) => k,
            None => return,
        };
        let mut c = self.connections[k].1;
        if !c.validate(addr, now) {
            return;
        }
        self.set_conn(k, c);
        let out_mss = c.out_mss;
        let clean = DataPacket::new(
            SequenceNumber::new(packet.seq_no.0),
            MessageNumber::new(packet.msg_no.0),
            packet.element,
            packet.order,
            packet.stamp,
            packet.dst_socket_id,
            packet.data,
        );
        let losses = self.recv.process_data(clean, out_mss, now);
        if losses.len() > 0 {
            let (_, p) = self.connections[k].1.create_loss(losses, stamp);
            self.emit(k, p, now, out);
        } else {
            self.recv.on_pkt(socket_id);
            match self.recv.next_ack(socket_id, now) {
                Some((ack_no, seq_no)) => self.send_ack(k, ack_no, seq_no, now, stamp, out),
                None => {},
            }
        }
    }

    fn process_control(&mut self, addr: PeerAddr, packet: ControlPacket, now: u64, now_secs: u64, stamp: u16, out: &mut Outgoing)
        requires
            old(self).wf(),
        ensures
            final(self).wf(),
            extends(old(out)@, final(out)@),
            conn_index(old(self).conns(), packet.dst_socket_id) < 0 && !(packet.info matches ControlPacketInfo::Handshake(_)) ==> final(out)@
                == old(out)@ && final(self).conns() == old(self).conns(),
            conn_index(old(self).conns(), packet.dst_socket_id) >= 0 && !accepted(old(self).conns(), packet.dst_socket_id, addr)
                && !(packet.info matches ControlPacketInfo::Handshake(_)) ==> final(out)@ == old(out)@ && final(self).conns() == old(self).conns(),
            ({
                let id = packet.dst_socket_id;
                let k = conn_index(old(self).conns(), id);
                let to = if k >= 0 { old(self).conns()[k].1.partner_in_addr } else { addr };
                &&& accepted(old(self).conns(), id, addr) && (packet.info matches ControlPacketInfo::Error(_)) && meta_code(packet.meta).is_some()
                    ==> final(self).conns()[k].1.status == NeonStatus::Unhealthy(meta_code(packet.meta).unwrap())
                &&& accepted(old(self).conns(), id, addr) && (packet.info matches ControlPacketInfo::Discover(_)) && meta_code(packet.meta).is_some()
                    ==> final(self).conns()[k].1.status == NeonStatus::Established
                &&& accepted(old(self).conns(), id, addr) && (packet.info matches ControlPacketInfo::Discover(d) && d.req_type == ReqType::Connection)
                    && meta_code(packet.meta).is_some() ==> exists|i: int|
                    old(out)@.len() <= i < final(out)@.len() && (#[trigger] final(out)@[i]).0 == to && is_discover(final(out)@[i].1, ReqType::Response)
                &&& accepted(old(self).conns(), id, addr) && (packet.info matches ControlPacketInfo::Shutdown(_)) ==> conn_index(final(self).conns(), id) < 0
                    && sends(final(out)@, old(out)@.len() as int, to, ControlType::Shutdown)
                &&& accepted(old(self).conns(), id, addr) && (packet.info matches ControlPacketInfo::Ack(_)) && ack_owed(old(self).send_view(), id, packet.meta, now)
                    ==> sends(final(out)@, old(out)@.len() as int, to, ControlType::AckSquare)
                &&& k >= 0 && (packet.info matches ControlPacketInfo::Handshake(h) && h.req_type == ReqType::Response && cookie_ok(id, h, now_secs))
                    ==> final(self).conns()[k].1.status == NeonStatus::Negotiating
                &&& k < 0 && (packet.info matches ControlPacketInfo::Handshake(h) && h.req_type == ReqType::Connection) ==> final(out)@.len() > old(out)@.len()
                    && exists|j: int|
                    0 <= j < final(self).conns().len() && (#[trigger] final(self).conns()[j]).0 == old(self).next_id()
                        && final(self).conns()[j].1.status == NeonStatus::Negotiating
            }),
    {
        let socket_id = packet.dst_socket_id;
        let is_handshake = match packet.info {
            ControlPacketInfo::Handshake(_) => true,
            _ => false,
        };
        let k = match self.find(socket_id) {
            Some(k) => k,
            None => {
                match packet.info {
                    ControlPacketInfo::Handshake(info) => self.new_connection(addr, packet.stamp, info, now, stamp, out),
                    _ => {},
                }
                return;
            },
        };
        let mut c = self.connections[k].1;
        if !c.validate(addr, now) && !is_handshake {
            return;
        }
        self.set_conn(k, c);
        self.recv.on_pkt(socket_id);
        proof {
            assert(same_shape(old(self).conns(), self.conns()));
        }
        if self.connections[k].1.status != NeonStatus::Connecting {
            match self.recv.next_ack(socket_id, now) {
                Some((ack_no, seq_no)) => {
                    let ghost c1 = self.conns();
                    let ghost o1 = out@;
                    self.send_ack(k, ack_no, seq_no, now, stamp, out);
                    proof {
                        assert forall|j: int| 0 <= j < old(out)@.len() implies #[trigger] out@[j] == old(out)@[j] by {
                            assert(out@[j] == o1[j]);
                        }
                        assert forall|j: int| 0 <= j < c1.len() implies (#[trigger] self.conns()[j]).0 == old(self).conns()[j].0
                            && self.conns()[j].1.status == old(self).conns()[j].1.status
                            && self.conns()[j].1.partner_in_addr == old(self).conns()[j].1.partner_in_addr
                            && self.conns()[j].1.partner_out_addr == old(self).conns()[j].1.partner_out_addr by {
                            assert(c1[j].0 == old(self).conns()[j].0);
                        }
                    }
                },
                None => {},
            }
        }
        let ghost mid = self.conns();
        let ghost mid_out = out@;
        proof {
            assert(same_shape(old(self).conns(), mid));
            assert(extends(old(out)@, mid_out));
            assert(self.send_view() == old(self).send_view());
            assert(mid[k as int].0 == socket_id);
        }
        let meta = packet.meta;
        match packet.info {
            ControlPacketInfo::Handshake(info) => self.process_handshake(k, packet.stamp, info, now, now_secs, stamp, out),
            ControlPacketInfo::KeepAlive(_) => self.process_keep_alive(socket_id, now),
            ControlPacketInfo::Ack(info) => self.process_ack(k, meta, info, now, stamp, out),
            ControlPacketInfo::Loss(info) => self.process_loss(socket_id, info),
            ControlPacketInfo::Shutdown(_) => self.process_shutdown(k, meta, now, stamp, out),
            ControlPacketInfo::AckSquare(_) => self.process_ack_square(socket_id, meta, now),
            ControlPacketInfo::Drop(info) => self.process_drop(socket_id, meta, info),
            ControlPacketInfo::Error(_) => self.process_err(k, meta),
            ControlPacketInfo::Discover(info) => self.process_discover(k, meta, info, now, stamp, out),
            _ => {},
        }
    }

    /// A keep-alive from the peer: unacknowledged data is scheduled again.
    fn process_keep_alive(&mut self, socket_id: u16, now: u64)
        requires
            old(self).wf(),
        ensures
            final(self).wf(),
            final(self).conns() == old(self).conns(),
    {
        self.send.keep_alive(socket_id, now);
    }

    /// An acknowledgement: feeds the receive side's estimators, trims the send side
    /// and answers with an ACK² when one is owed.
    fn process_ack(&mut self, k: usize, meta: ControlMeta, info: Ack, now: u64, stamp: u16, out: &mut Outgoing)
        requires
            old(self).wf(),
            k < old(self).conns().len(),
        ensures
            final(self).wf(),
            final(self).conns().len() == old(self).conns().len(),
            same_shape(old(self).conns(), final(self).conns()),
            extends(old(out)@, final(out)@),
            !(meta matches ControlMeta::Sequence(_)) ==> final(out)@ == old(out)@,
            ack_owed(old(self).send_view(), old(self).conns()[k as int].0, meta, now) ==> sends(
                final(out)@,
                old(out)@.len() as int,
                old(self).conns()[k as int].1.partner_in_addr,
                ControlType::AckSquare,
            ),
    {
        match meta {
            ControlMeta::Sequence(ack) => {
                let socket_id = self.connections[k].0;
                let ack_no = SequenceNumber::new(ack.0);
                self.recv.on_ack(socket_id, ack_no, info, now);
                proof {
                    assert(old(self).send_view() == self.send@);
                }
                if self.send.ack(socket_id, ack_no, now) {
                    let (_, p) = self.connections[k].1.create_ack_square(ack_no, stamp);
                    self.emit(k, p, now, out);
                    proof {
                        assert(final(out)@.subrange(0, old(out)@.len() as int) =~= old(out)@);
                        let i = old(out)@.len() as int;
                        assert(final(out)@[i].0 == old(self).conns()[k as int].1.partner_in_addr);
                        assert(is_ctrl(final(out)@[i].1, ControlType::AckSquare));
                    }
                }
            },
            _ => {},
        }
    }

    /// A loss report: each range goes to the send side's loss list, and the
    /// congestion controller hears of it.
    fn process_loss(&mut self, socket_id: u16, info: Loss)
        requires
            old(self).wf(),
        ensures
            final(self).wf(),
            final(self).conns() == old(self).conns(),
    {
        let mut i: usize = 0;
        while i < info.loss_range.len()
            invariant
                self.wf(),
                self.conns() == old(self).conns(),
            decreases info.loss_range@.len() - i,
        {
            let r = info.loss_range[i];
            let clean = SequenceRange { start: SequenceNumber::new(r.start.0), stop: SequenceNumber::new(r.stop.0) };
            self.send.loss(socket_id, clean);
            i = i + 1;
        }
        self.recv.loss(socket_id, &info.loss_range);
    }

    /// A shutdown: answered in kind, then the connection is forgotten everywhere.
    fn process_shutdown(&mut self, k: usize, meta: ControlMeta, now: u64, stamp: u16, out: &mut Outgoing)
        requires
            old(self).wf(),
            k < old(self).conns().len(),
        ensures
            final(self).wf(),
            final(self).conns().len() == old(self).conns().len() - 1,
            final(out)@.len() == old(out)@.len() + 1,
            extends(old(out)@, final(out)@),
            conn_index(final(self).conns(), old(self).conns()[k as int].0) < 0,
            sends(final(out)@, old(out)@.len() as int, old(self).conns()[k as int].1.partner_in_addr, ControlType::Shutdown),
    {
        let socket_id = self.connections[k].0;
        let code = match meta {
            ControlMeta::Other(x) => x,
            _ => 0,
        };
        let (_, p) = self.connections[k].1.create_shutdown(code, stamp);
        self.emit(k, p, now, out);
        proof {
            assert(final(out)@.subrange(0, old(out)@.len() as int) =~= old(out)@);
            let i = old(out)@.len() as int;
            assert(final(out)@[i].0 == old(self).conns()[k as int].1.partner_in_addr);
            assert(is_ctrl(final(out)@[i].1, ControlType::Shutdown));
        }
        let ghost mid = self.conns();
        self.remove_connection(k);
        proof {
            let id = old(self).conns()[k as int].0;
            assert(mid[k as int].0 == id);
            assert forall|j: int| 0 <= j < self.conns().len() implies self.conns()[j].0 != id by {
                let jj = if j < k { j } else { j + 1 };
                assert(self.conns()[j] == mid[jj]);
                assert(self.connections@[j] == mid[jj]);
            }
            if conn_index(self.conns(), id) >= 0 {
                let c = conn_index(self.conns(), id);
                assert(self.conns()[c].0 == id);
            }
        }
        self.send.remove(socket_id);
        self.recv.remove(socket_id);
    }

    /// An ACK²: both sides record it.
    fn process_ack_square(&mut self, socket_id: u16, meta: ControlMeta, now: u64)
        requires
            old(self).wf(),
        ensures
            final(self).wf(),
            final(self).conns() == old(self).conns(),
    {
        match meta {
            ControlMeta::Sequence(ack) => {
                let ack_no = SequenceNumber::new(ack.0);
                self.recv.ack_square(socket_id, ack_no, now);
                self.send.ack_square(socket_id, ack_no, now);
            },
            _ => {},
        }
    }

    /// A drop notice: the receive side forgets the message.
    fn process_drop(&mut self, socket_id: u16, meta: ControlMeta, info: Drop)
        requires
            old(self).wf(),
        ensures
            final(self).wf(),
            final(self).conns() == old(self).conns(),
    {
        match meta {
            ControlMeta::Message(m) => {
                let range = SequenceRange { start: SequenceNumber::new(info.range.start.0), stop: SequenceNumber::new(info.range.stop.0) };
                self.recv.drop_msg(socket_id, MessageNumber::new(m.0), range);
            },
            _ => {},
        }
    }

    /// An error report: the connection becomes unhealthy with the peer's code.
    fn process_err(&mut self, k: usize, meta: ControlMeta)
        requires
            old(self).wf(),
            k < old(self).conns().len(),
        ensures
            final(self).wf(),
            final(self).conns().len() == old(self).conns().len(),
            meta matches ControlMeta::Other(code) ==> final(self).conns()[k as int].1.status == NeonStatus::Unhealthy(code),
            forall|j: int| 0 <= j < old(self).conns().len() ==> (#[trigger] final(self).conns()[j]).0 == old(self).conns()[j].0,
    {
        match meta {
            ControlMeta::Other(code) => {
                let mut c = self.connections[k].1;
                c.error(code);
                self.set_conn(k, c);
            },
            _ => {},
        }
    }

    /// A discovery packet: the segment sizes shrink to what arrived and what the
    /// peer announced, the connection is established, and a request is answered.
    fn process_discover(&mut self, k: usize, meta: ControlMeta, info: Discover, now: u64, stamp: u16, out: &mut Outgoing)
        requires
            old(self).wf(),
            k < old(self).conns().len(),
        ensures
            final(self).wf(),
            final(self).conns().len() == old(self).conns().len(),
            extends(old(out)@, final(out)@),
            forall|j: int| 0 <= j < old(self).conns().len() ==> (#[trigger] final(self).conns()[j]).0 == old(self).conns()[j].0,
            meta matches ControlMeta::Other(_) ==> final(self).conns()[k as int].1.status == NeonStatus::Established,
            meta matches ControlMeta::Other(_) && info.req_type == ReqType::Connection ==> exists|i: int|
                old(out)@.len() <= i < final(out)@.len() && (#[trigger] final(out)@[i]).0 == old(self).conns()[k as int].1.partner_in_addr
                    && is_discover(final(out)@[i].1, ReqType::Response),
    {
        match meta {
            ControlMeta::Other(announced) => {
                let received: u16 = if info.data.len() > 0xffff { 0xffff } else { info.data.len() as u16 };
                let mut c = self.connections[k].1;
                c.establish(received, announced);
                self.set_conn(k, c);
                if info.req_type == ReqType::Connection {
                    self.send_discover(k, ReqType::Response, now, stamp, out);
                    proof {
                        let i = final(out)@.len() - 1;
                        assert(final(out)@[i] == final(out)@.last());
                    }
                }
            },
            _ => {},
        }
    }

    fn remove_connection(&mut self, k: usize)
        requires
            old(self).wf(),
            k < old(self).conns().len(),
        ensures
            final(self).wf(),
            final(self).conns() == old(self).conns().remove(k as int),
    {
        let ghost s = self.connections@;
        self.connections.remove(k);
        proof {
            assert forall|i: int, j: int|
                0 <= i < self.connections@.len() && 0 <= j < self.connections@.len() && i != j implies self.connections@[i].0 != self.connections@[j].0 by {
                let ii = if i < k { i } else { i + 1 };
                let jj = if j < k { j } else { j + 1 };
                assert(self.connections@[i] == s[ii]);
                assert(self.connections@[j] == s[jj]);
            }
        }
    }

    /// A first handshake from an unknown peer: a request gets a stateless response
    /// echoing its cookie, and the connection is recorded as negotiating.
    fn new_connection(&mut self, in_addr: PeerAddr, peer_stamp: u16, info: Handshake, now: u64, stamp: u16, out: &mut Outgoing)
        requires
            old(self).wf(),
        ensures
            final(self).wf(),
            extends(old(out)@, final(out)@),
            info.req_type != ReqType::Connection ==> final(out)@ == old(out)@ && final(self).conns() == old(self).conns(),
            info.req_type == ReqType::Connection ==> ({
                let to = PeerAddr { ip: in_addr.ip, port: info.port };
                &&& final(out)@.len() > old(out)@.len()
                &&& final(out)@[old(out)@.len() as int].0 == to
                &&& final(out)@[old(out)@.len() as int].1 matches Packet::Control(c) && (c.info matches ControlPacketInfo::Handshake(h)
                    && h.req_type == ReqType::Response && h.cookie == info.cookie)
                &&& exists|j: int|
                    0 <= j < final(self).conns().len() && (#[trigger] final(self).conns()[j]).0 == old(self).next_id()
                        && final(self).conns()[j].1.status == NeonStatus::Negotiating && final(self).conns()[j].1.partner_in_addr == to
                        && final(self).conns()[j].1.partner_out_addr == PeerAddr { ip: in_addr.ip, port: in_addr.port }
            }),
    {
        if info.req_type != ReqType::Connection {
            return;
        }
        let socket_id = self.inc_socket_id();
        let partner_in_addr = PeerAddr { ip: in_addr.ip, port: info.port };
        let response = Handshake::reply(socket_id, info.src_socket_id, info, self.local_port, stamp);
        let isn = match response.info {
            ControlPacketInfo::Handshake(h) => h.isn,
            _ => SequenceNumber(0),
        };
        let isn = SequenceNumber::new(isn.0);
        out.push((partner_in_addr, Packet::Control(response)));
        let in_mss = if info.mss < MAX_PACKET_SIZE { info.mss } else { MAX_PACKET_SIZE };
        let mut c = NeonConnection::new(isn, NeonStatus::Negotiating, info.src_socket_id, partner_in_addr, in_addr, MAX_PACKET_SIZE, in_mss, now);
        c.negotiate(peer_stamp, info.src_socket_id, in_addr.port);
        let k = match self.find(socket_id) {
            Some(k) => {
                self.set_conn(k, c);
                k
            },
            None => {
                let ghost s = self.connections@;
                self.connections.push((socket_id, c));
                proof {
                    assert forall|i: int, j: int|
                        0 <= i < self.connections@.len() && 0 <= j < self.connections@.len() && i != j implies self.connections@[i].0 != self.connections@[j].0 by {
                        if i < s.len() && j < s.len() {
                            assert(self.connections@[i] == s[i]);
                            assert(self.connections@[j] == s[j]);
                        } else if i < s.len() {
                            assert(self.connections@[i] == s[i]);
                            if s[i].0 == socket_id { assert(self.conns()[i].0 == socket_id); }
                        } else {
                            assert(self.connections@[j] == s[j]);
                            if s[j].0 == socket_id { assert(self.conns()[j].0 == socket_id); }
                        }
                    }
                }
                self.connections.len() - 1
            },
        };
        self.send.register_connection(socket_id, isn, now);
        self.recv.register_connection(socket_id, SequenceNumber::new(info.isn.0), now);
        let ghost out1 = out@;
        let ghost conns1 = self.conns();
        proof {
            assert(conns1[k as int].0 == socket_id);
            assert(conns1[k as int].1.status == NeonStatus::Negotiating);
            assert(out1[old(out)@.len() as int].0 == partner_in_addr);
        }
        self.send_discover(k, ReqType::Connection, now, stamp, out);
        proof {
            assert(out@[old(out)@.len() as int] == out1[old(out)@.len() as int]);
            assert(self.conns()[k as int].0 == socket_id);
            assert forall|j: int| 0 <= j < old(out)@.len() implies #[trigger] out@[j] == old(out)@[j] by {
                assert(out@[j] == out1[j]);
            }
        }
    }

    /// A handshake on a known socket: a valid response moves it to negotiation,
    /// sets up its send and receive state and starts segment-size discovery.
    fn process_handshake(&mut self, k: usize, peer_stamp: u16, info: Handshake, now: u64, now_secs: u64, stamp: u16, out: &mut Outgoing)
        requires
            old(self).wf(),
            k < old(self).conns().len(),
        ensures
            final(self).wf(),
            info.req_type != ReqType::Response ==> final(out)@ == old(out)@ && final(self).conns() == old(self).conns(),
            extends(old(out)@, final(out)@),
            final(self).conns().len() == old(self).conns().len(),
            forall|j: int| 0 <= j < old(self).conns().len() ==> (#[trigger] final(self).conns()[j]).0 == old(self).conns()[j].0,
            info.req_type == ReqType::Response && cookie_ok(old(self).conns()[k as int].0, info, now_secs) ==> final(self).conns()[k as int].1.status
                == NeonStatus::Negotiating,
    {
        if info.req_type != ReqType::Response {
            return;
        }
        let socket_id = self.connections[k].0;
        if !Handshake::validate(MAX_PACKET_SIZE, FLOW_CONTROL, socket_id, info, now_secs) {
            return;
        }
        let mut c = self.connections[k].1;
        c.negotiate(peer_stamp, info.src_socket_id, info.port);
        self.set_conn(k, c);
        self.recv.register_connection(socket_id, SequenceNumber::new(info.isn.0), now);
        self.send.register_connection(socket_id, SequenceNumber::new(c.isn.0), now);
        self.send_discover(k, ReqType::Connection, now, stamp, out);
    }

    /// Sends a handshake request for `socket_id` to `other` unless the connection is
    /// past `Connecting`: `Ok` once it is, else the request to send and
    /// `NotConnected`.
    pub fn handshake(&mut self, other: PeerAddr, socket_id: u16, now: u64, now_secs: u64, stamp: u16) -> (r: (Result<(), CoreError>, Outgoing))
        requires
            old(self).wf(),
        ensures
            final(self).wf(),
            r.0.is_ok() <==> (conn_index(old(self).conns(), socket_id) >= 0
                && old(self).conns()[conn_index(old(self).conns(), socket_id)].1.status != NeonStatus::Connecting),
            r.0.is_ok() ==> r.1@.len() == 0,
            r.0.is_err() ==> r.0 == Err::<(), CoreError>(CoreError::NotConnected) && r.1@.len() == 1 && r.1@[0].0 == other,
            r.0.is_err() ==> (r.1@[0].1 matches Packet::Control(c) && c.dst_socket_id == 0xffff && (c.info matches ControlPacketInfo::Handshake(h)
                && h.req_type == ReqType::Connection && h.src_socket_id == socket_id && h.mss == MAX_PACKET_SIZE
                && h.cookie == cookie_of(MAX_PACKET_SIZE, FLOW_CONTROL, socket_id, now_secs / 60).0)),
            conn_index(old(self).conns(), socket_id) < 0 ==> exists|j: int|
                0 <= j < final(self).conns().len() && (#[trigger] final(self).conns()[j]).0 == socket_id && final(self).conns()[j].1.status
                    == NeonStatus::Connecting && final(self).conns()[j].1.partner_out_addr == other,
            conn_index(old(self).conns(), socket_id) >= 0 ==> final(self).conns() == old(self).conns(),
    {
        let mut out: Outgoing = Vec::new();
        let packet = ControlPacket::handshake(0xffff, ReqType::Connection, MAX_PACKET_SIZE, socket_id, self.local_port, now_secs, stamp);
        let isn = match packet.info {
            ControlPacketInfo::Handshake(h) => SequenceNumber::new(h.isn.0),
            _ => SequenceNumber(0),
        };
        match self.find(socket_id) {
            Some(k) => {
                if self.connections[k].1.status != NeonStatus::Connecting {
                    return (Ok(()), out);
                }
            },
            None => {
                let c = NeonConnection::new(isn, NeonStatus::Connecting, 0, other, other, MAX_PACKET_SIZE, MAX_PACKET_SIZE, now);
                let ghost s = self.connections@;
                self.connections.push((socket_id, c));
                proof {
                    assert(self.conns()[s.len() as int] == (socket_id, c));
                }
                proof {
                    assert forall|i: int, j: int|
                        0 <= i < self.connections@.len() && 0 <= j < self.connections@.len() && i != j implies self.connections@[i].0 != self.connections@[j].0 by {
                        if i < s.len() && j < s.len() {
                            assert(self.connections@[i] == s[i]);
                            assert(self.connections@[j] == s[j]);
                        } else if i < s.len() {
                            assert(self.connections@[i] == s[i]);
                            if s[i].0 == socket_id { assert(old(self).conns()[i].0 == socket_id); }
                        } else {
                            assert(self.connections@[j] == s[j]);
                            if s[j].0 == socket_id { assert(old(self).conns()[j].0 == socket_id); }
                        }
                    }
                }
            },
        }
        out.push((other, Packet::Control(packet)));
        (Err(CoreError::NotConnected), out)
    }

    /// The periodic pass: discovery for negotiating connections, due ACKs, and
    /// keep-alives (a retransmission of unacknowledged data, or an explicit packet).
    pub fn manage_state(&mut self, now: u64, stamp: u16) -> (r: Outgoing)
        requires
            old(self).wf(),
        ensures
            final(self).wf(),
            final(self).conns().len() == old(self).conns().len(),
            forall|j: int|
                0 <= j < old(self).conns().len() && old(self).conns()[j].1.status == NeonStatus::Negotiating ==> exists|i: int|
                    0 <= i < r@.len() && (#[trigger] r@[i]).0 == (#[trigger] old(self).conns()[j]).1.partner_in_addr
                        && is_discover(r@[i].1, ReqType::Connection),
            forall|j: int|
                0 <= j < old(self).conns().len() ==> (#[trigger] final(self).conns()[j]).0 == old(self).conns()[j].0 && (final(self).conns()[j].1.status
                    == old(self).conns()[j].1.status || final(self).conns()[j].1.status == NeonStatus::Unhealthy(1)),
    {
        let mut out: Outgoing = Vec::new();
        let mut k: usize = 0;
        while k < self.connections.len()
            invariant
                self.wf(),
                0 <= k <= self.conns().len(),
                self.conns().len() == old(self).conns().len(),
                forall|j: int| 0 <= j < self.conns().len() ==> (#[trigger] self.conns()[j]).0 == old(self).conns()[j].0
                    && self.conns()[j].1.partner_in_addr == old(self).conns()[j].1.partner_in_addr,
                forall|j: int| k <= j < self.conns().len() ==> (#[trigger] self.conns()[j]).1.status == old(self).conns()[j].1.status,
                forall|j: int| 0 <= j < k ==> (#[trigger] self.conns()[j]).1.status == old(self).conns()[j].1.status
                    || self.conns()[j].1.status == NeonStatus::Unhealthy(1),
                forall|j: int|
                    0 <= j < k && old(self).conns()[j].1.status == NeonStatus::Negotiating ==> exists|i: int|
                        0 <= i < out@.len() && (#[trigger] out@[i]).0 == (#[trigger] old(self).conns()[j]).1.partner_in_addr
                            && is_discover(out@[i].1, ReqType::Connection),
            decreases self.conns().len() - k,
        {
            let socket_id = self.connections[k].0;
            let ghost o0 = out@;
            if self.connections[k].1.status == NeonStatus::Negotiating {
                self.send_discover(k, ReqType::Connection, now, stamp, &mut out);
                proof {
                    let i = out@.len() - 1;
                    assert(out@[i] == out@.last());
                    assert(out@[i].0 == old(self).conns()[k as int].1.partner_in_addr);
                }
            }
            let ghost o1 = out@;
            match self.recv.next_ack(socket_id, now) {
                Some((ack_no, seq_no)) => self.send_ack(k, ack_no, seq_no, now, stamp, &mut out),
                None => {},
            }
            let ghost o2 = out@;
            let (rtt, rtt_var, _, _, _) = self.recv.time_data(socket_id);
            let rtt = if rtt > 0xffff_ffff { 0xffff_ffff } else { rtt };
            let rtt_var = if rtt_var > 0xffff_ffff { 0xffff_ffff } else { rtt_var };
            let mut c = self.connections[k].1;
            let keep = if c.expiration_counter < 0xffff_ffff { c.should_keep_alive(rtt, rtt_var, now) } else { false };
            self.set_conn(k, c);
            if keep && self.send.keep_alive(socket_id, now) {
                let (_, p) = self.connections[k].1.create_keep_alive(stamp);
                self.emit(k, p, now, &mut out);
            }
            proof {
                assert(extends(o0, out@)) by {
                    assert forall|j: int| 0 <= j < o0.len() implies #[trigger] out@[j] == o0[j] by {
                        assert(o1[j] == o0[j]);
                        assert(o2[j] == o1[j]);
                    }
                }
                assert forall|j: int|
                    0 <= j < k + 1 && old(self).conns()[j].1.status == NeonStatus::Negotiating implies exists|i: int|
                        0 <= i < out@.len() && (#[trigger] out@[i]).0 == (#[trigger] old(self).conns()[j]).1.partner_in_addr
                            && is_discover(out@[i].1, ReqType::Connection) by {
                    if j < k {
                        let i = choose|i: int| 0 <= i < o0.len() && (#[trigger] o0[i]).0 == old(self).conns()[j].1.partner_in_addr
                            && is_discover(o0[i].1, ReqType::Connection);
                        assert(out@[i] == o0[i]);
                    } else {
                        let i = o0.len() as int;
                        assert(o1[i].0 == old(self).conns()[j].1.partner_in_addr);
                        assert(o2[i] == o1[i]);
                        assert(out@[i] == o2[i]);
                    }
                }
            }
            k = k + 1;
        }
        out
    }

    /// Sends the next packet of `socket_id` and the drop notices of the fragments it
    /// gave up.
    pub fn send_packet(&mut self, socket_id: u16, now: u64, stamp: u16) -> (r: Outgoing)
        requires
            old(self).wf(),
        ensures
            final(self).wf(),
            conn_index(old(self).conns(), socket_id) < 0 ==> r@.len() == 0,
            conn_index(old(self).conns(), socket_id) >= 0 ==> forall|i: int| 0 <= i < r@.len() ==> (#[trigger] r@[i]).0
                == old(self).conns()[conn_index(old(self).conns(), socket_id)].1.partner_in_addr,
            conn_index(old(self).conns(), socket_id) >= 0 && socket_index(old(self).send_view().connections, socket_id) >= 0 ==> ({
                let o = old(self).send_view().connections[socket_index(old(self).send_view().connections, socket_id)].1;
                let live = o.data.blocks.filter(is_live(now));
                &&& has_retransmission(o) ==> r@.len() >= 1 && exists|k: int|
                    0 <= k < o.data.blocks.len() && covered(o.loss, o.data.blocks[k].packet.seq_no.0 as int)
                        && data_of(Some(r@[0].1)) == Some(#[trigger] o.data.blocks[k].packet)
                &&& !has_retransmission(o) && first_fresh(live).is_some() ==> r@.len() >= 1
                    && data_of(Some(r@[0].1)) == Some(live[first_fresh(live).unwrap()].packet)
            }),
    {
        let mut out: Outgoing = Vec::new();
        let k = match self.find(socket_id) {
            Some(k) => k,
            None => return out,
        };
        proof {
            assert(old(self).send_view() == self.send@);
        }
        let popped = self.send.send_data(socket_id, now);
        let ghost pv = data_of(popped);
        match popped {
            Some(p) => {
                self.emit(k, p, now, &mut out);
                proof {
                    assert(data_of(Some(out@[0].1)) == pv);
                }
            },
            None => {},
        }
        let ghost first = out@;
        let drops = self.send.drops(socket_id);
        let mut i: usize = 0;
        while i < drops.len()
            invariant
                self.wf(),
                k < self.conns().len(),
                self.conns().len() == old(self).conns().len(),
                self.conns()[k as int].1.partner_in_addr == old(self).conns()[k as int].1.partner_in_addr,
                out@.len() >= first.len(),
                forall|j: int| 0 <= j < first.len() ==> out@[j] == first[j],
                forall|j: int| 0 <= j < out@.len() ==> (#[trigger] out@[j]).0 == old(self).conns()[k as int].1.partner_in_addr,
            decreases drops@.len() - i,
        {
            let (m, r) = drops[i];
            let (_, p) = self.connections[k].1.create_drop(m, r, stamp);
            self.emit(k, p, now, &mut out);
            i = i + 1;
        }
        out
    }

    /// The socket whose next send is due first and the wait until then.
    /// The socket whose next send is due first and the wait until then; that
    /// scheduled send is taken off (see `SendList::next_time`).
    pub fn next_time(&mut self, now: u64) -> (r: Option<(u16, u64)>)
        requires
            old(self).wf(),
        ensures
            final(self).wf(),
            r.is_none() <==> forall|i: int| 0 <= i < old(self).send_view().connections.len() ==> (#[trigger] old(self).send_view().connections[i]).1.updates.len() == 0,
            r.is_none() ==> final(self).send_view() == old(self).send_view(),
            r.is_some() ==> ({
                let (id, d) = r.unwrap();
                let k = socket_index(old(self).send_view().connections, id);
                let u = old(self).send_view().connections[k].1.updates;
                &&& k >= 0
                &&& forall|j: int, q: int|
                    0 <= j < old(self).send_view().connections.len() && 0 <= q < old(self).send_view().connections[j].1.updates.len()
                        ==> d <= (#[trigger] old(self).send_view().connections[j].1.updates[q]).saturating_sub(now)
                &&& exists|q: int|
                    0 <= q < u.len() && d == u[q].saturating_sub(now) && final(self).send_view().connections[k].1.updates == u.remove(q)
                        && forall|q2: int| 0 <= q2 < u.len() ==> u[q] <= #[trigger] u[q2]
                &&& final(self).send_view().connections.len() == old(self).send_view().connections.len()
                &&& final(self).send_view().connections[k].1.data == old(self).send_view().connections[k].1.data
                &&& final(self).send_view().connections[k].1.loss == old(self).send_view().connections[k].1.loss
            }),
            final(self).conns() == old(self).conns(),
            final(self).recv_view() == old(self).recv_view(),
    {
        let r = self.send.next_time(now);
        proof {
            assert(old(self).send_view() == old(self).send@);
        }
        r
    }

    /// Sockets waiting for the send worker.
    pub fn poll_send(&self) -> (r: Vec<u16>)
    {
        self.send.poll()
    }

    /// Marks the connections that reached `Established` as queued and hands out
    /// the oldest queued one.
    pub fn next_stream(&mut self) -> (r: Option<u16>)
        requires
            old(self).wf(),
        ensures
            final(self).wf(),
            final(self).conns().len() == old(self).conns().len(),
            forall|k: int| 0 <= k < old(self).conns().len() ==> #[trigger] final(self).conns()[k] == queued_entry(old(self).conns()[k]),
            ({
                let q = old(self).queued() + established_ids(old(self).conns());
                if q.len() == 0 {
                    r.is_none() && final(self).queued() == q
                } else {
                    r == Some(q[0]) && final(self).queued() == q.drop_first()
                }
            }),
            final(self).send_view() == old(self).send_view(),
            final(self).recv_view() == old(self).recv_view(),
    {
        let mut k: usize = 0;
        while k < self.connections.len()
            invariant
                self.wf(),
                0 <= k <= self.conns().len(),
                self.conns().len() == old(self).conns().len(),
                self.queued() == old(self).queued() + established_ids(old(self).conns().take(k as int)),
                forall|j: int| 0 <= j < k ==> #[trigger] self.conns()[j] == queued_entry(old(self).conns()[j]),
                forall|j: int| k <= j < self.conns().len() ==> #[trigger] self.conns()[j] == old(self).conns()[j],
                self.send_view() == old(self).send_view(),
                self.recv_view() == old(self).recv_view(),
            decreases self.conns().len() - k,
        {
            let (id, mut c) = self.connections[k];
            let ghost before = self.queued();
            proof {
                assert(old(self).conns().take(k + 1).drop_last() =~= old(self).conns().take(k as int));
                assert(old(self).conns().take(k + 1).last() == old(self).conns()[k as int]);
            }
            if c.status == NeonStatus::Established {
                c.set_status(NeonStatus::Queued);
                self.set_conn(k, c);
                self.queued_streams.push(id);
                proof {
                    assert(self.queued() =~= before.push(id));
                }
            }
            k = k + 1;
        }
        proof {
            assert(old(self).conns().take(old(self).conns().len() as int) =~= old(self).conns());
        }
        if self.queued_streams.len() == 0 {
            None
        } else {
            let ghost q = self.queued();
            let r = self.queued_streams.remove(0);
            proof {
                assert(self.queued() =~= q.drop_first());
            }
            Some(r)
        }
    }

    /// The next complete message of `socket_id`.
    /// The next complete message of `socket_id` (see `RecvBuffer::pop`).
    pub fn read_data(&mut self, socket_id: u16) -> (r: Option<Vec<u8>>)
        requires
            old(self).wf(),
        ensures
            final(self).wf(),
            recv_index(old(self).recv_view(), socket_id) < 0 ==> r.is_none(),
            recv_index(old(self).recv_view(), socket_id) >= 0 ==> ({
                let k = recv_index(old(self).recv_view(), socket_id);
                let o = old(self).recv_view()[k].1.data;
                let n = final(self).recv_view()[k].1.data;
                let bi = block_index(o.blocks, o.last_msg);
                &&& final(self).recv_view().len() == old(self).recv_view().len()
                &&& final(self).recv_view()[k].0 == socket_id
                &&& if bi >= 0 && o.blocks[bi].state == BlockState::Complete {
                    r.is_some() && r.unwrap()@ == decompressed(assembled(o.blocks[bi].data)) && delivers(o, n, o.last_msg)
                } else {
                    r.is_none() && n == o
                }
            }),
            final(self).conns() == old(self).conns(),
            final(self).queued() == old(self).queued(),
            final(self).send_view() == old(self).send_view(),
    {
        self.recv.read_data(socket_id)
    }

    /// Stores a message for `socket_id` and schedules its fragments at the
    /// connection's send period.
    pub fn send_data(&mut self, socket_id: u16, data: &[u8], ttl: u64, order: bool, now: u64, stamp: u16) -> (r: Result<(), CoreError>)
        requires
            old(self).wf(),
        ensures
            final(self).wf(),
            conn_index(old(self).conns(), socket_id) < 0 ==> r == Err::<(), CoreError>(CoreError::NotConnected),
            conn_index(old(self).conns(), socket_id) >= 0 ==> (r.is_ok() <==> old(self).conns()[conn_index(old(self).conns(), socket_id)].1.out_mss > 0
                && data@.len() <= u32::MAX),
            r.is_err() ==> final(self).send_view() == old(self).send_view(),
            r.is_ok() && socket_index(old(self).send_view().connections, socket_id) < 0 ==> final(self).send_view().connections == old(self).send_view().connections,
            r.is_ok() && socket_index(old(self).send_view().connections, socket_id) >= 0 ==> ({
                let k = socket_index(old(self).send_view().connections, socket_id);
                let o = old(self).send_view().connections[k].1;
                let n = final(self).send_view().connections[k].1;
                let cnt = n.data.blocks.len() - o.data.blocks.len();
                &&& n.updates.len() == o.updates.len() + cnt
                &&& n.data.last_seq.0 == (o.data.last_seq.0 + cnt) % 0x8000
                &&& n.loss == o.loss
            }),
            final(self).recv_view() == old(self).recv_view(),
    {
        let k = match self.find(socket_id) {
            Some(k) => k,
            None => return Err(CoreError::NotConnected),
        };
        let c = self.connections[k].1;
        if c.out_mss == 0 || data.len() > 0xffff_ffff {
            return Err(CoreError::InvalidInput);
        }
        let delay = self.recv.delay(socket_id);
        let cnt = self.send.push_data(socket_id, data, ttl, order, c.partner_id, c.out_mss, now, stamp);
        self.send.update(socket_id, cnt, delay, now);
        proof {
            assert(old(self).send_view() == old(self).send@);
        }
        let mut c2 = self.connections[k].1;
        c2.sent_packet(now);
        self.set_conn(k, c2);
        Ok(())
    }
}

impl Packet {
    pub open spec fn socket_id_spec(&self) -> u16 {
        match self {
            Packet::Control(c) => c.dst_socket_id,
            Packet::Data(d) => d.dst_socket_id,
        }
    }

    pub open spec fn is_handshake(&self) -> bool {
        match self {
            Packet::Control(c) => c.info matches ControlPacketInfo::Handshake(_),
            Packet::Data(_) => false,
        }
    }
}

} // verus!
