use vstd::prelude::*;
use crate::packet::control::{ControlMeta, ControlPacket, ControlPacketInfo, ControlType, ReqType};
use crate::packet::Packet;
use crate::send_buffer::SYN_INTERVAL;
use crate::utils::{MessageNumber, SequenceNumber, SequenceRange};

verus! {

/// Smallest keep-alive expiration step: 300 ms, in microseconds.
pub const MIN_EXPIRATION: u64 = 300_000;

/// Lifecycle of a connection.
#[derive(Debug, Clone, Copy, PartialEq, Eq, Structural)]
pub enum NeonStatus {
    Connecting,
    Negotiating,
    Established,
    Queued,
    Healthy,
    Unhealthy(u16),
}

/// Which way a datagram socket is used.
#[derive(Debug, Clone, Copy, PartialEq, Eq, Structural)]
pub enum SocketDirection {
    In,
    Out,
    Shared,
}

/// A peer's address: an IPv6 address (IPv4 mapped) and a port.
#[derive(Debug, Clone, Copy, PartialEq, Eq, Structural)]
pub struct PeerAddr {
    pub ip: u128,
    pub port: u16,
}

/// One connection: peer identity, segment sizes and liveness. Times in microseconds.
#[derive(Debug, Clone, Copy)]
pub struct NeonConnection {
    pub status: NeonStatus,
    pub isn: SequenceNumber,
    pub partner_id: u16,
    pub partner_in_addr: PeerAddr,
    pub partner_out_addr: PeerAddr,
    pub out_mss: u16,
    pub in_mss: u16,
    pub last_update: u64,
    pub first_update: u16,
    pub closing: bool,
    pub expiration_counter: u64,
}

/// The wait before the next keep-alive check: `counter · (rtt + 4·rtt_var) + SYN_INTERVAL`,
/// at least `counter · MIN_EXPIRATION`.
pub open spec fn expiration_interval(counter: int, rtt: int, rtt_var: int) -> int {
    let e = counter * (rtt + 4 * rtt_var) + SYN_INTERVAL;
    if e < counter * MIN_EXPIRATION { counter * MIN_EXPIRATION } else { e }
}

impl NeonConnection {
    pub fn new(
        isn: SequenceNumber,
        status: NeonStatus,
        partner_id: u16,
        partner_in_addr: PeerAddr,
        partner_out_addr: PeerAddr,
        out_mss: u16,
        in_mss: u16,
        now: u64,
    ) -> (r: Self)
        ensures
            r == (NeonConnection {
                status,
                isn,
                partner_id,
                partner_in_addr,
                partner_out_addr,
                out_mss,
                in_mss,
                last_update: now,
                first_update: 0,
                closing: false,
                expiration_counter: 1,
            }),
    {
        NeonConnection {
            status,
            isn,
            partner_id,
            partner_in_addr,
            partner_out_addr,
            out_mss,
            in_mss,
            last_update: now,
            first_update: 0,
            closing: false,
            expiration_counter: 1,
        }
    }

    pub fn status(&self) -> (r: NeonStatus)
        ensures
            r == self.status,
    {
        self.status
    }

    pub fn set_status(&mut self, status: NeonStatus)
        ensures
            *final(self) == (NeonConnection { status, ..*old(self) }),
    {
        self.status = status;
    }

    pub fn partner_in_addr(&self) -> (r: PeerAddr)
        ensures
            r == self.partner_in_addr,
    {
        self.partner_in_addr
    }

    pub fn isn(&self) -> (r: SequenceNumber)
        ensures
            r == self.isn,
    {
        self.isn
    }

    pub fn partner_id(&self) -> (r: u16)
        ensures
            r == self.partner_id,
    {
        self.partner_id
    }

    /// `(in_mss, out_mss)`.
    pub fn mss(&self) -> (r: (u16, u16))
        ensures
            r == (self.in_mss, self.out_mss),
    {
        (self.in_mss, self.out_mss)
    }

    /// Escalating keep-alive check at `now`. Each call counts one attempt. Past the
    /// expiration time it answers true (send a keep-alive), unless more than 16
    /// attempts went by and the expiration passed over 500 ms ago: then the
    /// connection is marked closing and unhealthy (code 1), and the answer is false.
    pub fn should_keep_alive(&mut self, rtt: u64, rtt_var: u64, now: u64) -> (r: bool)
        requires
            old(self).expiration_counter < 0x1_0000_0000,
            rtt < 0x1_0000_0000,
            rtt_var < 0x1_0000_0000,
        ensures
            ({
                let o = *old(self);
                let next = o.last_update + expiration_interval(o.expiration_counter as int, rtt as int, rtt_var as int);
                let c = (o.expiration_counter + 1) as u64;
                if now >= next && c > 16 && now - next > 500_000 {
                    !r && *final(self) == (NeonConnection {
                        expiration_counter: c,
                        closing: true,
                        status: NeonStatus::Unhealthy(1),
                        ..o
                    })
                } else {
                    r == (now >= next) && *final(self) == (NeonConnection { expiration_counter: c, ..o })
                }
            }),
    {
        let c = self.expiration_counter as u128;
        proof {
            assert(c * (rtt as u128 + 4 * rtt_var as u128) <= 0x1_0000_0000 * 0x5_0000_0000) by (nonlinear_arith)
                requires c < 0x1_0000_0000, rtt < 0x1_0000_0000, rtt_var < 0x1_0000_0000;
            assert(c * MIN_EXPIRATION as u128 <= 0x1_0000_0000 * 300_000) by (nonlinear_arith)
                requires c < 0x1_0000_0000;
        }
        let mut exp_int: u128 = c * (rtt as u128 + 4 * rtt_var as u128) + SYN_INTERVAL as u128;
        if exp_int < c * MIN_EXPIRATION as u128 {
            exp_int = c * MIN_EXPIRATION as u128;
        }
        let next: u128 = self.last_update as u128 + exp_int;
        self.expiration_counter = self.expiration_counter + 1;
        if now as u128 >= next {
            let timeout = now as u128 - next;
            if self.expiration_counter > 16 && timeout > 500_000 {
                self.closing = true;
                self.status = NeonStatus::Unhealthy(1);
                false
            } else {
                true
            }
        } else {
            false
        }
    }

    /// Notes that a packet went out at `now`.
    pub fn sent_packet(&mut self, now: u64)
        ensures
            *final(self) == (NeonConnection { last_update: now, ..*old(self) }),
    {
        self.last_update = now;
    }

    /// Takes the element-wise minimum of the segment sizes and marks the connection
    /// established.
    pub fn establish(&mut self, in_mss: u16, out_mss: u16)
        ensures
            final(self).in_mss == if in_mss < old(self).in_mss { in_mss } else { old(self).in_mss },
            final(self).out_mss == if out_mss < old(self).out_mss { out_mss } else { old(self).out_mss },
            final(self).status == NeonStatus::Established,
            final(self).partner_in_addr == old(self).partner_in_addr,
            final(self).closing == old(self).closing,
    {
        if in_mss < self.in_mss {
            self.in_mss = in_mss;
        }
        if out_mss < self.out_mss {
            self.out_mss = out_mss;
        }
        self.status = NeonStatus::Established;
    }

    /// The peer reported error `code`.
    pub fn error(&mut self, code: u16)
        ensures
            *final(self) == (NeonConnection { status: NeonStatus::Unhealthy(code), ..*old(self) }),
    {
        self.status = NeonStatus::Unhealthy(code);
    }

    /// Accepts a packet only from the peer's known source address; an accepted one
    /// refreshes liveness.
    pub fn validate(&mut self, addr: PeerAddr, now: u64) -> (r: bool)
        ensures
            r == (addr == old(self).partner_out_addr),
            r ==> *final(self) == (NeonConnection { last_update: now, expiration_counter: 1, ..*old(self) }),
            !r ==> *final(self) == *old(self),
    {
        if self.partner_out_addr == addr {
            self.last_update = now;
            self.expiration_counter = 1;
            true
        } else {
            false
        }
    }

    /// The peer answered the handshake: records its id and the port it listens on,
    /// and moves to negotiation.
    pub fn negotiate(&mut self, stamp: u16, partner_id: u16, port: u16)
        ensures
            *final(self) == (NeonConnection {
                first_update: stamp,
                partner_id,
                status: NeonStatus::Negotiating,
                partner_out_addr: PeerAddr { ip: old(self).partner_out_addr.ip, port },
                ..*old(self)
            }),
    {
        self.first_update = stamp;
        self.partner_id = partner_id;
        self.status = NeonStatus::Negotiating;
        self.partner_out_addr = PeerAddr { ip: self.partner_out_addr.ip, port };
    }

    pub fn create_ack(
        &self,
        ack_no: SequenceNumber,
        seq_no: SequenceNumber,
        rtt: u64,
        rtt_var: u64,
        buffer_size: u16,
        window: u64,
        bandwidth: u64,
        stamp: u16,
    ) -> (r: (PeerAddr, Packet))
        ensures
            r.0 == self.partner_in_addr,
            r.1 matches Packet::Control(c) && c.dst_socket_id == self.partner_id && c.control_type == ControlType::Ack && c.meta == ControlMeta::Sequence(ack_no),
    {
        let ms = |x: u64| -> (y: u16)
            ensures y as int == if x / 1000 > 0xffff { 0xffff } else { x / 1000 },
        {
            if x / 1000 > 0xffff { 0xffff } else { (x / 1000) as u16 }
        };
        let w: u16 = if window > 0xffff { 0xffff } else { window as u16 };
        let b: u16 = if bandwidth > 0xffff { 0xffff } else { bandwidth as u16 };
        let p = ControlPacket::ack(self.partner_id, ack_no, seq_no, ms(rtt), ms(rtt_var), buffer_size, w, b, stamp);
        (self.partner_in_addr, Packet::Control(p))
    }

    pub fn create_ack_square(&self, ack_no: SequenceNumber, stamp: u16) -> (r: (PeerAddr, Packet))
        ensures
            r.0 == self.partner_in_addr,
            r.1 matches Packet::Control(c) && c.dst_socket_id == self.partner_id && c.control_type == ControlType::AckSquare && c.meta == ControlMeta::Sequence(ack_no),
    {
        (self.partner_in_addr, Packet::Control(ControlPacket::ack_square(self.partner_id, ack_no, stamp)))
    }

    pub fn create_loss(&self, ranges: Vec<SequenceRange>, stamp: u16) -> (r: (PeerAddr, Packet))
        ensures
            r.0 == self.partner_in_addr,
            r.1 matches Packet::Control(c) && c.dst_socket_id == self.partner_id,
    {
        (self.partner_in_addr, Packet::Control(ControlPacket::loss(self.partner_id, ranges, stamp)))
    }

    pub fn create_keep_alive(&self, stamp: u16) -> (r: (PeerAddr, Packet))
        ensures
            r.0 == self.partner_in_addr,
            r.1 matches Packet::Control(c) && c.dst_socket_id == self.partner_id && c.control_type == ControlType::KeepAlive,
    {
        (self.partner_in_addr, Packet::Control(ControlPacket::keep_alive(self.partner_id, stamp)))
    }

    pub fn create_shutdown(&self, code: u16, stamp: u16) -> (r: (PeerAddr, Packet))
        ensures
            r.0 == self.partner_in_addr,
            r.1 matches Packet::Control(c) && c.dst_socket_id == self.partner_id && c.control_type == ControlType::Shutdown && c.meta == ControlMeta::Other(code),
    {
        (self.partner_in_addr, Packet::Control(ControlPacket::shutdown(self.partner_id, code, stamp)))
    }

    pub fn create_error(&self, code: u16, stamp: u16) -> (r: (PeerAddr, Packet))
        ensures
            r.0 == self.partner_in_addr,
            r.1 matches Packet::Control(c) && c.dst_socket_id == self.partner_id,
    {
        (self.partner_in_addr, Packet::Control(ControlPacket::error(self.partner_id, code, stamp)))
    }

    pub fn create_drop(&self, msg_no: MessageNumber, range: SequenceRange, stamp: u16) -> (r: (PeerAddr, Packet))
        ensures
            r.0 == self.partner_in_addr,
            r.1 matches Packet::Control(c) && c.dst_socket_id == self.partner_id && c.control_type == ControlType::Drop && c.meta == ControlMeta::Message(msg_no),
    {
        (self.partner_in_addr, Packet::Control(ControlPacket::drop(self.partner_id, msg_no, range, stamp)))
    }

    /// A discovery packet announcing our `in_mss`, padded to `out_mss`.
    pub fn create_discovery(&self, req_type: ReqType, stamp: u16) -> (r: (PeerAddr, Packet))
        ensures
            r.0 == self.partner_in_addr,
            r.1 matches Packet::Control(c) && c.dst_socket_id == self.partner_id && c.control_type == ControlType::Discover
                && (c.info matches ControlPacketInfo::Discover(d) && d.req_type == req_type),
    {
        (self.partner_in_addr, Packet::Control(ControlPacket::discovery(self.partner_id, self.in_mss, self.out_mss, req_type, stamp)))
    }
}

} // verus!
