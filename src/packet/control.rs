use vstd::prelude::*;
use crate::serial::{be16, from_be16, push_u16, read_u16, tail, append_bytes, Serial};
use crate::utils::{ranges_wf, MessageNumber, SequenceNumber, SequenceRange};

verus! {

/// Flow-control window announced in every handshake.
pub const FLOW_CONTROL: u16 = 25600;

/// Which side of a two-way exchange a packet is.
#[derive(Copy, Clone, Debug, PartialEq, Eq, Structural)]
pub enum ReqType {
    Connection,
    Response,
}

/// Body of a handshake packet.
#[derive(Copy, Clone, Debug, PartialEq, Eq, Structural)]
pub struct Handshake {
    pub isn: SequenceNumber,
    pub req_type: ReqType,
    pub mss: u16,
    pub flow_control: u16,
    pub src_socket_id: u16,
    pub cookie: u16,
    pub port: u16,
}

/// Body of a keep-alive packet (empty).
#[derive(Copy, Clone, Debug, PartialEq, Eq, Structural)]
pub struct KeepAlive {}

/// Body of an acknowledgement.
#[derive(Copy, Clone, Debug, PartialEq, Eq, Structural)]
pub struct Ack {
    pub seq_no: SequenceNumber,
    pub rtt: u16,
    pub rrt_variance: u16,
    pub buffer_size: u16,
    pub window: u16,
    pub bandwidth: u16,
}

/// Body of a loss report: the ranges believed missing.
#[derive(Clone, Debug)]
pub struct Loss {
    pub loss_range: Vec<SequenceRange>,
}

/// Body of a congestion notice (empty).
#[derive(Copy, Clone, Debug, PartialEq, Eq, Structural)]
pub struct Congestion {}

/// Body of a shutdown packet (empty).
#[derive(Copy, Clone, Debug, PartialEq, Eq, Structural)]
pub struct Shutdown {}

/// Body of an acknowledgement of an acknowledgement (empty).
#[derive(Copy, Clone, Debug, PartialEq, Eq, Structural)]
pub struct AckSquare {}

/// Body of a drop notice: the sequence numbers given up.
#[derive(Copy, Clone, Debug, PartialEq, Eq, Structural)]
pub struct Drop {
    pub range: SequenceRange,
}

/// Body of an error packet (empty).
#[derive(Copy, Clone, Debug, PartialEq, Eq, Structural)]
pub struct Error {}

/// Body of a segment-size discovery packet: padding whose first byte tells the kind.
#[derive(Clone, Debug)]
pub struct Discover {
    pub req_type: ReqType,
    pub data: Vec<u8>,
}

/// Body of an application-defined control packet.
#[derive(Clone, Debug)]
pub struct Custom {
    pub data: Vec<u8>,
}

/// The meta word of a control packet.
#[derive(Copy, Clone, Debug, PartialEq, Eq, Structural)]
pub enum ControlMeta {
    Sequence(SequenceNumber),
    Message(MessageNumber),
    Other(u16),
}

#[derive(Copy, Clone, Debug, PartialEq, Eq, Structural)]
pub enum ControlType {
    Handshake,
    KeepAlive,
    Ack,
    Loss,
    Congestion,
    Shutdown,
    AckSquare,
    Drop,
    Error,
    Discover,
    Custom,
}

#[derive(Clone, Debug)]
pub enum ControlPacketInfo {
    Handshake(Handshake),
    KeepAlive(KeepAlive),
    Ack(Ack),
    Loss(Loss),
    Congestion(Congestion),
    Shutdown(Shutdown),
    AckSquare(AckSquare),
    Drop(Drop),
    Error(Error),
    Discover(Discover),
    Custom(Custom),
}

#[derive(Clone, Debug)]
pub struct ControlPacket {
    pub control_type: ControlType,
    pub meta: ControlMeta,
    pub stamp: u16,
    pub dst_socket_id: u16,
    pub info: ControlPacketInfo,
}

/// The mathematical value of a control body.
pub enum InfoView {
    Handshake(Handshake),
    KeepAlive,
    Ack(Ack),
    Loss(Seq<SequenceRange>),
    Congestion,
    Shutdown,
    AckSquare,
    Drop(SequenceRange),
    Error,
    Discover(ReqType, Seq<u8>),
    Custom(Seq<u8>),
}

/// The mathematical value of a control packet.
pub struct ControlPacketView {
    pub control_type: ControlType,
    pub meta: ControlMeta,
    pub stamp: u16,
    pub dst_socket_id: u16,
    pub info: InfoView,
}

impl View for ControlPacketInfo {
    type V = InfoView;

    open spec fn view(&self) -> InfoView {
        match self {
            ControlPacketInfo::Handshake(h) => InfoView::Handshake(*h),
            ControlPacketInfo::KeepAlive(_) => InfoView::KeepAlive,
            ControlPacketInfo::Ack(a) => InfoView::Ack(*a),
            ControlPacketInfo::Loss(l) => InfoView::Loss(l.loss_range@),
            ControlPacketInfo::Congestion(_) => InfoView::Congestion,
            ControlPacketInfo::Shutdown(_) => InfoView::Shutdown,
            ControlPacketInfo::AckSquare(_) => InfoView::AckSquare,
            ControlPacketInfo::Drop(d) => InfoView::Drop(d.range),
            ControlPacketInfo::Error(_) => InfoView::Error,
            ControlPacketInfo::Discover(d) => InfoView::Discover(d.req_type, d.data@),
            ControlPacketInfo::Custom(c) => InfoView::Custom(c.data@),
        }
    }
}

impl View for ControlPacket {
    type V = ControlPacketView;

    open spec fn view(&self) -> ControlPacketView {
        ControlPacketView {
            control_type: self.control_type,
            meta: self.meta,
            stamp: self.stamp,
            dst_socket_id: self.dst_socket_id,
            info: self.info@,
        }
    }
}

/// The 15-bit code of each control type.
pub open spec fn type_code(t: ControlType) -> u16 {
    match t {
        ControlType::Handshake => 0,
        ControlType::KeepAlive => 1,
        ControlType::Ack => 2,
        ControlType::Loss => 3,
        ControlType::Congestion => 4,
        ControlType::Shutdown => 5,
        ControlType::AckSquare => 6,
        ControlType::Drop => 7,
        ControlType::Error => 8,
        ControlType::Discover => 9,
        ControlType::Custom => 0x7fff,
    }
}

pub open spec fn type_of_code(c: int) -> Option<ControlType> {
    if c == 0 {
        Some(ControlType::Handshake)
    } else if c == 1 {
        Some(ControlType::KeepAlive)
    } else if c == 2 {
        Some(ControlType::Ack)
    } else if c == 3 {
        Some(ControlType::Loss)
    } else if c == 4 {
        Some(ControlType::Congestion)
    } else if c == 5 {
        Some(ControlType::Shutdown)
    } else if c == 6 {
        Some(ControlType::AckSquare)
    } else if c == 7 {
        Some(ControlType::Drop)
    } else if c == 8 {
        Some(ControlType::Error)
    } else if c == 9 {
        Some(ControlType::Discover)
    } else if c == 0x7fff {
        Some(ControlType::Custom)
    } else {
        None
    }
}

/// The control type that a body belongs to.
pub open spec fn info_type(i: InfoView) -> ControlType {
    match i {
        InfoView::Handshake(_) => ControlType::Handshake,
        InfoView::KeepAlive => ControlType::KeepAlive,
        InfoView::Ack(_) => ControlType::Ack,
        InfoView::Loss(_) => ControlType::Loss,
        InfoView::Congestion => ControlType::Congestion,
        InfoView::Shutdown => ControlType::Shutdown,
        InfoView::AckSquare => ControlType::AckSquare,
        InfoView::Drop(_) => ControlType::Drop,
        InfoView::Error => ControlType::Error,
        InfoView::Discover(_, _) => ControlType::Discover,
        InfoView::Custom(_) => ControlType::Custom,
    }
}

pub open spec fn meta_word(m: ControlMeta) -> u16 {
    match m {
        ControlMeta::Sequence(s) => s.0,
        ControlMeta::Message(n) => n.0,
        ControlMeta::Other(x) => x,
    }
}

/// How the meta word of each control type is read.
pub open spec fn meta_of(t: ControlType, w: u16) -> ControlMeta {
    match t {
        ControlType::Ack | ControlType::Loss | ControlType::AckSquare => ControlMeta::Sequence(
            SequenceNumber((w % 0x8000) as u16),
        ),
        ControlType::Drop => ControlMeta::Message(MessageNumber((w % 0x2000) as u16)),
        _ => ControlMeta::Other(w),
    }
}

/// The meta word of a packet of type `t` survives encoding.
pub open spec fn meta_fits(t: ControlType, m: ControlMeta) -> bool {
    meta_of(t, meta_word(m)) == m
}

pub open spec fn range_byte(r: SequenceRange, k: int) -> u8 {
    if k == 0 {
        be16(r.start.0)[0]
    } else if k == 1 {
        be16(r.start.0)[1]
    } else if k == 2 {
        be16(r.stop.0)[0]
    } else {
        be16(r.stop.0)[1]
    }
}

/// Four big-endian bytes per range.
pub open spec fn ranges_wire(rs: Seq<SequenceRange>) -> Seq<u8> {
    Seq::new(4 * rs.len(), |j: int| range_byte(rs[j / 4], j % 4))
}

pub open spec fn range_at(b: Seq<u8>, at: int) -> SequenceRange {
    SequenceRange {
        start: SequenceNumber((from_be16(b[at], b[at + 1]) % 0x8000) as u16),
        stop: SequenceNumber((from_be16(b[at + 2], b[at + 3]) % 0x8000) as u16),
    }
}

pub open spec fn hs_word(h: Handshake) -> u16 {
    (h.isn.0 + (if h.req_type == ReqType::Connection { 0x8000int } else { 0 })) as u16
}

pub open spec fn info_wire(i: InfoView) -> Seq<u8> {
    match i {
        InfoView::Handshake(h) => be16(hs_word(h)) + be16(h.mss) + be16(h.flow_control) + be16(
            h.src_socket_id,
        ) + be16(h.cookie) + be16(h.port),
        InfoView::Ack(a) => be16(a.seq_no.0) + be16(a.rtt) + be16(a.rrt_variance) + be16(
            a.buffer_size,
        ) + be16(a.window) + be16(a.bandwidth),
        InfoView::Loss(rs) => ranges_wire(rs),
        InfoView::Drop(r) => be16(r.start.0) + be16(r.stop.0),
        InfoView::Discover(_, d) => d,
        InfoView::Custom(d) => d,
        _ => Seq::empty(),
    }
}

/// Reading of a body of type `t` from the bytes after the header.
pub open spec fn parse_info(t: ControlType, b: Seq<u8>) -> Option<InfoView> {
    match t {
        ControlType::Handshake => if b.len() < 12 {
            None
        } else {
            let w = from_be16(b[0], b[1]);
            Some(
                InfoView::Handshake(
                    Handshake {
                        isn: SequenceNumber((w % 0x8000) as u16),
                        req_type: if w / 0x8000 == 1 {
                            ReqType::Connection
                        } else {
                            ReqType::Response
                        },
                        mss: from_be16(b[2], b[3]),
                        flow_control: from_be16(b[4], b[5]),
                        src_socket_id: from_be16(b[6], b[7]),
                        cookie: from_be16(b[8], b[9]),
                        port: from_be16(b[10], b[11]),
                    },
                ),
            )
        },
        ControlType::Ack => if b.len() < 12 {
            None
        } else {
            Some(
                InfoView::Ack(
                    Ack {
                        seq_no: SequenceNumber((from_be16(b[0], b[1]) % 0x8000) as u16),
                        rtt: from_be16(b[2], b[3]),
                        rrt_variance: from_be16(b[4], b[5]),
                        buffer_size: from_be16(b[6], b[7]),
                        window: from_be16(b[8], b[9]),
                        bandwidth: from_be16(b[10], b[11]),
                    },
                ),
            )
        },
        ControlType::Loss => Some(
            InfoView::Loss(Seq::new((b.len() / 4) as nat, |i: int| range_at(b, 4 * i))),
        ),
        ControlType::Drop => if b.len() < 4 {
            None
        } else {
            Some(InfoView::Drop(range_at(b, 0)))
        },
        ControlType::Discover => if b.len() < 1 {
            None
        } else {
            Some(
                InfoView::Discover(
                    if b[0] == 0xff {
                        ReqType::Connection
                    } else {
                        ReqType::Response
                    },
                    b,
                ),
            )
        },
        ControlType::Custom => Some(InfoView::Custom(b)),
        ControlType::KeepAlive => Some(InfoView::KeepAlive),
        ControlType::Congestion => Some(InfoView::Congestion),
        ControlType::Shutdown => Some(InfoView::Shutdown),
        ControlType::AckSquare => Some(InfoView::AckSquare),
        ControlType::Error => Some(InfoView::Error),
    }
}

pub open spec fn control_wire(p: ControlPacketView) -> Seq<u8> {
    be16((0x8000 + type_code(p.control_type)) as u16) + be16(meta_word(p.meta)) + be16(p.stamp)
        + be16(p.dst_socket_id) + info_wire(p.info)
}

/// Reading of a control packet from its bytes.
pub open spec fn parse_control(b: Seq<u8>) -> Option<ControlPacketView> {
    if b.len() < 8 {
        None
    } else {
        match type_of_code(from_be16(b[0], b[1]) as int % 0x8000) {
            None => None,
            Some(t) => match parse_info(t, b.subrange(8, b.len() as int)) {
                None => None,
                Some(info) => Some(
                    ControlPacketView {
                        control_type: t,
                        meta: meta_of(t, from_be16(b[2], b[3])),
                        stamp: from_be16(b[4], b[5]),
                        dst_socket_id: from_be16(b[6], b[7]),
                        info,
                    },
                ),
            },
        }
    }
}

/// A body that survives encoding.
pub open spec fn info_wf(i: InfoView) -> bool {
    match i {
        InfoView::Handshake(h) => h.isn.wf(),
        InfoView::Ack(a) => a.seq_no.wf(),
        InfoView::Loss(rs) => ranges_wf(rs),
        InfoView::Drop(r) => r.wf(),
        InfoView::Discover(req, d) => d.len() > 0 && ((d[0] == 0xff) <==> (req
            == ReqType::Connection)),
        _ => true,
    }
}

pub open spec fn control_view_wf(p: ControlPacketView) -> bool {
    info_type(p.info) == p.control_type && meta_fits(p.control_type, p.meta) && info_wf(p.info)
}

proof fn lemma_info_round_trip(i: InfoView)
    requires
        info_wf(i),
    ensures
        parse_info(info_type(i), info_wire(i)) == Some(i),
{
    let w = info_wire(i);
    match i {
        InfoView::Handshake(h) => {
            let x = hs_word(h);
            assert(w[0] == be16(x)[0] && w[1] == be16(x)[1]);
            assert(w[2] == be16(h.mss)[0] && w[3] == be16(h.mss)[1]);
            assert(w[4] == be16(h.flow_control)[0] && w[5] == be16(h.flow_control)[1]);
            assert(w[6] == be16(h.src_socket_id)[0] && w[7] == be16(h.src_socket_id)[1]);
            assert(w[8] == be16(h.cookie)[0] && w[9] == be16(h.cookie)[1]);
            assert(w[10] == be16(h.port)[0] && w[11] == be16(h.port)[1]);
        },
        InfoView::Ack(a) => {
            assert(w[0] == be16(a.seq_no.0)[0] && w[1] == be16(a.seq_no.0)[1]);
            assert(w[2] == be16(a.rtt)[0] && w[3] == be16(a.rtt)[1]);
            assert(w[4] == be16(a.rrt_variance)[0] && w[5] == be16(a.rrt_variance)[1]);
            assert(w[6] == be16(a.buffer_size)[0] && w[7] == be16(a.buffer_size)[1]);
            assert(w[8] == be16(a.window)[0] && w[9] == be16(a.window)[1]);
            assert(w[10] == be16(a.bandwidth)[0] && w[11] == be16(a.bandwidth)[1]);
        },
        InfoView::Loss(rs) => {
            assert((w.len() / 4) as nat == rs.len());
            let got = Seq::new((w.len() / 4) as nat, |k: int| range_at(w, 4 * k));
            assert forall|k: int| 0 <= k < rs.len() implies got[k] == rs[k] by {
                assert((4 * k) / 4 == k && (4 * k + 1) / 4 == k && (4 * k + 2) / 4 == k && (4 * k
                    + 3) / 4 == k);
                assert((4 * k) % 4 == 0 && (4 * k + 1) % 4 == 1 && (4 * k + 2) % 4 == 2 && (4 * k
                    + 3) % 4 == 3);
                assert(rs[k].wf());
            }
            assert(got =~= rs);
        },
        InfoView::Drop(r) => {
            assert(w[0] == be16(r.start.0)[0] && w[1] == be16(r.start.0)[1]);
            assert(w[2] == be16(r.stop.0)[0] && w[3] == be16(r.stop.0)[1]);
        },
        _ => {},
    }
}

/// Reading back the encoding of a well-formed control packet gives the packet.
pub proof fn lemma_control_round_trip(p: ControlPacketView)
    requires
        control_view_wf(p),
    ensures
        parse_control(control_wire(p)) == Some(p),
{
    let w = control_wire(p);
    let c = (0x8000 + type_code(p.control_type)) as u16;
    let m = meta_word(p.meta);
    assert(w[0] == be16(c)[0] && w[1] == be16(c)[1]);
    assert(w[2] == be16(m)[0] && w[3] == be16(m)[1]);
    assert(w[4] == be16(p.stamp)[0] && w[5] == be16(p.stamp)[1]);
    assert(w[6] == be16(p.dst_socket_id)[0] && w[7] == be16(p.dst_socket_id)[1]);
    assert(w.subrange(8, w.len() as int) =~= info_wire(p.info));
    lemma_info_round_trip(p.info);
}

impl ControlPacket {
    pub open spec fn wf(&self) -> bool {
        control_view_wf(self@)
    }

    /// Reads a control packet; `None` when it is short or of an unknown type.
    pub fn deserialize(bytes: &[u8]) -> (r: Option<ControlPacket>)
        ensures
            match r {
                Some(p) => parse_control(bytes@) == Some(p@),
                None => parse_control(bytes@).is_none(),
            },
    {
        if bytes.len() < 8 {
            return None;
        }
        let code = read_u16(bytes, 0) % 0x8000;
        let t = if code == 0 {
            ControlType::Handshake
        } else if code == 1 {
            ControlType::KeepAlive
        } else if code == 2 {
            ControlType::Ack
        } else if code == 3 {
            ControlType::Loss
        } else if code == 4 {
            ControlType::Congestion
        } else if code == 5 {
            ControlType::Shutdown
        } else if code == 6 {
            ControlType::AckSquare
        } else if code == 7 {
            ControlType::Drop
        } else if code == 8 {
            ControlType::Error
        } else if code == 9 {
            ControlType::Discover
        } else if code == 0x7fff {
            ControlType::Custom
        } else {
            return None;
        };
        let w = read_u16(bytes, 2);
        let meta = match t {
            ControlType::Ack | ControlType::Loss | ControlType::AckSquare => ControlMeta::Sequence(
                SequenceNumber(w % 0x8000),
            ),
            ControlType::Drop => ControlMeta::Message(MessageNumber(w % 0x2000)),
            _ => ControlMeta::Other(w),
        };
        let stamp = read_u16(bytes, 4);
        let dst_socket_id = read_u16(bytes, 6);
        let ghost b = bytes@.subrange(8, bytes@.len() as int);
        let n = bytes.len() - 8;
        let info = match t {
            ControlType::Handshake => {
                if n < 12 {
                    return None;
                }
                let x = read_u16(bytes, 8);
                ControlPacketInfo::Handshake(
                    Handshake {
                        isn: SequenceNumber(x % 0x8000),
                        req_type: if x / 0x8000 == 1 {
                            ReqType::Connection
                        } else {
                            ReqType::Response
                        },
                        mss: read_u16(bytes, 10),
                        flow_control: read_u16(bytes, 12),
                        src_socket_id: read_u16(bytes, 14),
                        cookie: read_u16(bytes, 16),
                        port: read_u16(bytes, 18),
                    },
                )
            },
            ControlType::Ack => {
                if n < 12 {
                    return None;
                }
                ControlPacketInfo::Ack(
                    Ack {
                        seq_no: SequenceNumber(read_u16(bytes, 8) % 0x8000),
                        rtt: read_u16(bytes, 10),
                        rrt_variance: read_u16(bytes, 12),
                        buffer_size: read_u16(bytes, 14),
                        window: read_u16(bytes, 16),
                        bandwidth: read_u16(bytes, 18),
                    },
                )
            },
            ControlType::Loss => {
                let count = n / 4;
                let mut rs: Vec<SequenceRange> = Vec::new();
                let mut k: usize = 0;
                while k < count
                    invariant
                        count == n / 4,
                        4 * count <= n,
                        n == bytes@.len() - 8,
                        bytes@.len() <= usize::MAX,
                        b == bytes@.subrange(8, bytes@.len() as int),
                        0 <= k <= count,
                        rs@ == Seq::new(k as nat, |i: int| range_at(b, 4 * i)),
                    decreases count - k,
                {
                    proof {
                        assert(4 * k + 4 <= 4 * count) by (nonlinear_arith)
                            requires k < count;
                    }
                    let at = 8 + 4 * k;
                    let r = SequenceRange {
                        start: SequenceNumber(read_u16(bytes, at) % 0x8000),
                        stop: SequenceNumber(read_u16(bytes, at + 2) % 0x8000),
                    };
                    proof {
                        assert(r == range_at(b, 4 * k));
                    }
                    rs.push(r);
                    proof {
                        assert(rs@ =~= Seq::new((k + 1) as nat, |i: int| range_at(b, 4 * i)));
                    }
                    k = k + 1;
                }
                ControlPacketInfo::Loss(Loss { loss_range: rs })
            },
            ControlType::Drop => {
                if n < 4 {
                    return None;
                }
                ControlPacketInfo::Drop(
                    Drop {
                        range: SequenceRange {
                            start: SequenceNumber(read_u16(bytes, 8) % 0x8000),
                            stop: SequenceNumber(read_u16(bytes, 10) % 0x8000),
                        },
                    },
                )
            },
            ControlType::Discover => {
                if n < 1 {
                    return None;
                }
                let req_type = if bytes[8] == 0xff {
                    ReqType::Connection
                } else {
                    ReqType::Response
                };
                ControlPacketInfo::Discover(Discover { req_type, data: tail(bytes, 8) })
            },
            ControlType::Custom => ControlPacketInfo::Custom(Custom { data: tail(bytes, 8) }),
            ControlType::KeepAlive => ControlPacketInfo::KeepAlive(KeepAlive {  }),
            ControlType::Congestion => ControlPacketInfo::Congestion(Congestion {  }),
            ControlType::Shutdown => ControlPacketInfo::Shutdown(Shutdown {  }),
            ControlType::AckSquare => ControlPacketInfo::AckSquare(AckSquare {  }),
            ControlType::Error => ControlPacketInfo::Error(Error {  }),
        };
        let p = ControlPacket { control_type: t, meta, stamp, dst_socket_id, info };
        proof {
            assert(type_of_code(from_be16(bytes@[0], bytes@[1]) as int % 0x8000) == Some(t));
            assert(parse_info(t, b) == Some(p.info@));
        }
        Some(p)
    }
}

/// Appends the encoding of each range.
fn push_ranges(bytes: &mut Vec<u8>, rs: &Vec<SequenceRange>)
    ensures
        final(bytes)@ == old(bytes)@ + ranges_wire(rs@),
{
    let mut i: usize = 0;
    while i < rs.len()
        invariant
            0 <= i <= rs@.len(),
            bytes@ == old(bytes)@ + ranges_wire(rs@.take(i as int)),
        decreases rs@.len() - i,
    {
        let r = rs[i];
        let ghost before = bytes@;
        push_u16(bytes, r.start.0);
        push_u16(bytes, r.stop.0);
        proof {
            let a = ranges_wire(rs@.take(i as int));
            let b = ranges_wire(rs@.take(i + 1));
            assert forall|j: int| 0 <= j < b.len() implies b[j] == (a + be16(r.start.0) + be16(r.stop.0))[j] by {
                if j < 4 * i {
                    assert(j / 4 < i);
                } else {
                    assert(j / 4 == i);
                }
            }
            assert(b =~= a + be16(r.start.0) + be16(r.stop.0));
            assert(bytes@ =~= old(bytes)@ + b);
        }
        i = i + 1;
    }
    proof {
        assert(rs@.take(rs@.len() as int) =~= rs@);
    }
}

impl Serial for ControlPacket {
    open spec fn encodable(&self) -> bool {
        self.wf()
    }

    open spec fn wire(&self) -> Seq<u8> {
        control_wire(self@)
    }

    fn serialize(&self) -> (r: Vec<u8>) {
        let mut bytes: Vec<u8> = Vec::new();
        let code: u16 = match self.control_type {
            ControlType::Handshake => 0,
            ControlType::KeepAlive => 1,
            ControlType::Ack => 2,
            ControlType::Loss => 3,
            ControlType::Congestion => 4,
            ControlType::Shutdown => 5,
            ControlType::AckSquare => 6,
            ControlType::Drop => 7,
            ControlType::Error => 8,
            ControlType::Discover => 9,
            ControlType::Custom => 0x7fff,
        };
        push_u16(&mut bytes, 0x8000 + code);
        let m: u16 = match self.meta {
            ControlMeta::Sequence(s) => s.0,
            ControlMeta::Message(n) => n.0,
            ControlMeta::Other(x) => x,
        };
        push_u16(&mut bytes, m);
        push_u16(&mut bytes, self.stamp);
        push_u16(&mut bytes, self.dst_socket_id);
        let ghost head = bytes@;
        match &self.info {
            ControlPacketInfo::Handshake(h) => {
                let c: u16 = if h.req_type == ReqType::Connection { 0x8000 } else { 0 };
                push_u16(&mut bytes, h.isn.0 + c);
                push_u16(&mut bytes, h.mss);
                push_u16(&mut bytes, h.flow_control);
                push_u16(&mut bytes, h.src_socket_id);
                push_u16(&mut bytes, h.cookie);
                push_u16(&mut bytes, h.port);
            },
            ControlPacketInfo::Ack(a) => {
                push_u16(&mut bytes, a.seq_no.0);
                push_u16(&mut bytes, a.rtt);
                push_u16(&mut bytes, a.rrt_variance);
                push_u16(&mut bytes, a.buffer_size);
                push_u16(&mut bytes, a.window);
                push_u16(&mut bytes, a.bandwidth);
            },
            ControlPacketInfo::Loss(l) => {
                push_ranges(&mut bytes, &l.loss_range);
            },
            ControlPacketInfo::Drop(d) => {
                push_u16(&mut bytes, d.range.start.0);
                push_u16(&mut bytes, d.range.stop.0);
            },
            ControlPacketInfo::Discover(d) => {
                append_bytes(&mut bytes, &d.data);
            },
            ControlPacketInfo::Custom(c) => {
                append_bytes(&mut bytes, &c.data);
            },
            _ => {},
        }
        proof {
            assert(bytes@ =~= head + info_wire(self.info@));
            assert(bytes@ =~= control_wire(self@));
        }
        bytes
    }
}


/// The padding byte of a discovery packet of each kind.
pub open spec fn discover_fill(req_type: ReqType) -> u8 {
    if req_type == ReqType::Connection {
        0xff
    } else {
        0x7f
    }
}

impl KeepAlive {
    pub fn new() -> (r: Self)
        ensures
            r == (KeepAlive {  }),
    {
        KeepAlive {  }
    }
}

impl Congestion {
    pub fn new() -> (r: Self)
        ensures
            r == (Congestion {  }),
    {
        Congestion {  }
    }
}

impl Shutdown {
    pub fn new() -> (r: Self)
        ensures
            r == (Shutdown {  }),
    {
        Shutdown {  }
    }
}

impl AckSquare {
    pub fn new() -> (r: Self)
        ensures
            r == (AckSquare {  }),
    {
        AckSquare {  }
    }
}

impl Error {
    pub fn new() -> (r: Self)
        ensures
            r == (Error {  }),
    {
        Error {  }
    }
}

impl Ack {
    pub fn new(
        seq_no: SequenceNumber,
        rtt: u16,
        rrt_variance: u16,
        buffer_size: u16,
        window: u16,
        bandwidth: u16,
    ) -> (r: Self)
        ensures
            r == (Ack { seq_no, rtt, rrt_variance, buffer_size, window, bandwidth }),
    {
        Ack { seq_no, rtt, rrt_variance, buffer_size, window, bandwidth }
    }
}

impl Loss {
    pub fn new(loss_range: Vec<SequenceRange>) -> (r: Self)
        ensures
            r.loss_range@ == loss_range@,
    {
        Loss { loss_range }
    }
}

impl Drop {
    pub fn new(range: SequenceRange) -> (r: Self)
        ensures
            r.range == range,
    {
        Drop { range }
    }
}

impl Custom {
    pub fn new(data: Vec<u8>) -> (r: Self)
        ensures
            r.data@ == data@,
    {
        Custom { data }
    }
}

impl Discover {
    /// `count` bytes of padding, each the fill byte of `req_type`.
    pub fn new(count: usize, req_type: ReqType) -> (r: Self)
        ensures
            r.req_type == req_type,
            r.data@ == Seq::new(count as nat, |i: int| discover_fill(req_type)),
    {
        let c: u8 = match req_type {
            ReqType::Connection => 0xff,
            ReqType::Response => 0x7f,
        };
        let data = vec![c; count];
        proof {
            assert(data@ =~= Seq::new(count as nat, |i: int| discover_fill(req_type)));
        }
        Discover { req_type, data }
    }
}

impl ControlPacket {
    pub fn keep_alive(dst_socket_id: u16, stamp: u16) -> (r: Self)
        ensures
            r@ == (ControlPacketView {
                control_type: ControlType::KeepAlive,
                meta: ControlMeta::Other(0),
                stamp,
                dst_socket_id,
                info: InfoView::KeepAlive,
            }),
            r.wf(),
    {
        ControlPacket {
            control_type: ControlType::KeepAlive,
            meta: ControlMeta::Other(0),
            stamp,
            dst_socket_id,
            info: ControlPacketInfo::KeepAlive(KeepAlive::new()),
        }
    }

    pub fn ack(
        dst_socket_id: u16,
        ack_no: SequenceNumber,
        seq_no: SequenceNumber,
        rtt: u16,
        rrt_variance: u16,
        buffer_size: u16,
        window: u16,
        bandwidth: u16,
        stamp: u16,
    ) -> (r: Self)
        ensures
            r@ == (ControlPacketView {
                control_type: ControlType::Ack,
                meta: ControlMeta::Sequence(ack_no),
                stamp,
                dst_socket_id,
                info: InfoView::Ack(Ack { seq_no, rtt, rrt_variance, buffer_size, window, bandwidth }),
            }),
            ack_no.wf() && seq_no.wf() ==> r.wf(),
    {
        ControlPacket {
            control_type: ControlType::Ack,
            meta: ControlMeta::Sequence(ack_no),
            stamp,
            dst_socket_id,
            info: ControlPacketInfo::Ack(
                Ack::new(seq_no, rtt, rrt_variance, buffer_size, window, bandwidth),
            ),
        }
    }

    pub fn loss(dst_socket_id: u16, ranges: Vec<SequenceRange>, stamp: u16) -> (r: Self)
        ensures
            r@ == (ControlPacketView {
                control_type: ControlType::Loss,
                meta: ControlMeta::Sequence(SequenceNumber(0)),
                stamp,
                dst_socket_id,
                info: InfoView::Loss(ranges@),
            }),
            ranges_wf(ranges@) ==> r.wf(),
    {
        ControlPacket {
            control_type: ControlType::Loss,
            meta: ControlMeta::Sequence(SequenceNumber(0)),
            stamp,
            dst_socket_id,
            info: ControlPacketInfo::Loss(Loss::new(ranges)),
        }
    }

    pub fn congestion(dst_socket_id: u16, factor: u16, stamp: u16) -> (r: Self)
        ensures
            r@ == (ControlPacketView {
                control_type: ControlType::Congestion,
                meta: ControlMeta::Other(factor),
                stamp,
                dst_socket_id,
                info: InfoView::Congestion,
            }),
            r.wf(),
    {
        ControlPacket {
            control_type: ControlType::Congestion,
            meta: ControlMeta::Other(factor),
            stamp,
            dst_socket_id,
            info: ControlPacketInfo::Congestion(Congestion::new()),
        }
    }

    pub fn shutdown(dst_socket_id: u16, code: u16, stamp: u16) -> (r: Self)
        ensures
            r@ == (ControlPacketView {
                control_type: ControlType::Shutdown,
                meta: ControlMeta::Other(code),
                stamp,
                dst_socket_id,
                info: InfoView::Shutdown,
            }),
            r.wf(),
    {
        ControlPacket {
            control_type: ControlType::Shutdown,
            meta: ControlMeta::Other(code),
            stamp,
            dst_socket_id,
            info: ControlPacketInfo::Shutdown(Shutdown::new()),
        }
    }

    pub fn ack_square(dst_socket_id: u16, ack_no: SequenceNumber, stamp: u16) -> (r: Self)
        ensures
            r@ == (ControlPacketView {
                control_type: ControlType::AckSquare,
                meta: ControlMeta::Sequence(ack_no),
                stamp,
                dst_socket_id,
                info: InfoView::AckSquare,
            }),
            ack_no.wf() ==> r.wf(),
    {
        ControlPacket {
            control_type: ControlType::AckSquare,
            meta: ControlMeta::Sequence(ack_no),
            stamp,
            dst_socket_id,
            info: ControlPacketInfo::AckSquare(AckSquare::new()),
        }
    }

    pub fn drop(dst_socket_id: u16, msg_no: MessageNumber, range: SequenceRange, stamp: u16) -> (r:
        Self)
        ensures
            r@ == (ControlPacketView {
                control_type: ControlType::Drop,
                meta: ControlMeta::Message(msg_no),
                stamp,
                dst_socket_id,
                info: InfoView::Drop(range),
            }),
            msg_no.wf() && range.wf() ==> r.wf(),
    {
        ControlPacket {
            control_type: ControlType::Drop,
            meta: ControlMeta::Message(msg_no),
            stamp,
            dst_socket_id,
            info: ControlPacketInfo::Drop(Drop::new(range)),
        }
    }

    pub fn error(dst_socket_id: u16, code: u16, stamp: u16) -> (r: Self)
        ensures
            r@ == (ControlPacketView {
                control_type: ControlType::Error,
                meta: ControlMeta::Other(code),
                stamp,
                dst_socket_id,
                info: InfoView::Error,
            }),
            r.wf(),
    {
        ControlPacket {
            control_type: ControlType::Error,
            meta: ControlMeta::Other(code),
            stamp,
            dst_socket_id,
            info: ControlPacketInfo::Error(Error::new()),
        }
    }

    /// A discovery packet announcing `in_mss`, padded to `out_mss` bytes.
    pub fn discovery(dst_socket_id: u16, in_mss: u16, out_mss: u16, req_type: ReqType, stamp: u16) -> (r: Self)
        ensures
            r@ == (ControlPacketView {
                control_type: ControlType::Discover,
                meta: ControlMeta::Other(in_mss),
                stamp,
                dst_socket_id,
                info: InfoView::Discover(req_type, Seq::new(out_mss as nat, |i: int| discover_fill(req_type))),
            }),
            out_mss > 0 ==> r.wf(),
    {
        ControlPacket {
            control_type: ControlType::Discover,
            meta: ControlMeta::Other(in_mss),
            stamp,
            dst_socket_id,
            info: ControlPacketInfo::Discover(Discover::new(out_mss as usize, req_type)),
        }
    }
}

} // verus!
