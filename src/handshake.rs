use vstd::prelude::*;
use crate::congestion::MAX_PACKET_SIZE;
use crate::packet::control::{
    ControlMeta, ControlPacket, ControlPacketInfo, ControlType, Handshake, ReqType, FLOW_CONTROL,
};
use crate::serial::{be16, push_u16};
use crate::sha::sha256;
use crate::utils::SequenceNumber;

verus! {

/// Big-endian bytes of a 64-bit value.
pub open spec fn be64(x: u64) -> Seq<u8> {
    Seq::new(8, |i: int| ((x >> ((8 * (7 - i)) as u64)) & 0xff) as u8)
}

/// The bytes a cookie is derived from.
pub open spec fn cookie_input(mss: u16, flow_control: u16, socket_id: u16, minute: u64) -> Seq<u8> {
    be16(mss) + be16(flow_control) + be16(socket_id) + be64(minute)
}

/// XOR of the big-endian 16-bit words `from .. from + n` of `d`.
pub open spec fn xor_words(d: Seq<u8>, from: int, n: int) -> u16
    decreases n,
{
    if n <= 0 {
        0
    } else {
        xor_words(d, from, n - 1) ^ ((d[2 * (from + n - 1)] as u16) * 256 + d[2 * (from + n - 1) + 1] as u16) as u16
    }
}

/// The (cookie, isn) pair: the digest's first eight words XORed together, and that
/// value XORed with the last eight words.
pub open spec fn cookie_of(mss: u16, flow_control: u16, socket_id: u16, minute: u64) -> (u16, u16) {
    let d = sha256(cookie_input(mss, flow_control, socket_id, minute));
    (xor_words(d, 0, 8), xor_words(d, 0, 8) ^ xor_words(d, 8, 8))
}

/// Cookies derived within the same minute are equal.
pub proof fn lemma_cookie_stable(mss: u16, flow_control: u16, socket_id: u16, t: u64, k: u64)
    requires
        t as int + k as int <= u64::MAX,
        t / 60 == (t + k) as u64 / 60,
    ensures
        cookie_of(mss, flow_control, socket_id, t / 60) == cookie_of(mss, flow_control, socket_id, (t + k) as u64 / 60),
{
}

fn xor_fold(d: &Vec<u8>, from: usize, n: usize) -> (r: u16)
    requires
        2 * (from + n) <= d@.len(),
    ensures
        r == xor_words(d@, from as int, n as int),
{
    let dl = d.len();
    let mut acc: u16 = 0;
    let mut i: usize = 0;
    while i < n
        invariant
            0 <= i <= n,
            dl == d@.len(),
            2 * (from + n) <= d@.len(),
            acc == xor_words(d@, from as int, i as int),
        decreases n - i,
    {
        let at = 2 * (from + i);
        let w: u16 = (d[at] as u16) * 256 + d[at + 1] as u16;
        acc = acc ^ w;
        i = i + 1;
    }
    acc
}

impl Handshake {
    /// Derives the (cookie, isn) pair for a connection request from the SHA-256 of
    /// its segment size, flow-control window, socket id and minute.
    pub fn cookie(mss: u16, flow_control: u16, socket_id: u16, minute: u64) -> (r: (u16, u16))
        ensures
            r == cookie_of(mss, flow_control, socket_id, minute),
    {
        let mut input: Vec<u8> = Vec::new();
        push_u16(&mut input, mss);
        push_u16(&mut input, flow_control);
        push_u16(&mut input, socket_id);
        let ghost head = input@;
        let mut j: usize = 0;
        while j < 8
            invariant
                0 <= j <= 8,
                input@ == head + Seq::new(j as nat, |i: int| ((minute >> ((8 * (7 - i)) as u64)) & 0xff) as u8),
            decreases 8 - j,
        {
            input.push(((minute >> ((8 * (7 - j)) as u64)) & 0xff) as u8);
            proof {
                assert(input@ =~= head + Seq::new((j + 1) as nat, |i: int| ((minute >> ((8 * (7 - i)) as u64)) & 0xff) as u8));
            }
            j = j + 1;
        }
        proof {
            assert(input@ =~= cookie_input(mss, flow_control, socket_id, minute));
        }
        let digest = crate::sha::Hash::hash(input.as_slice());
        proof {
            assert(digest@.len() == 32);
        }
        let cookie = xor_fold(&digest, 0, 8);
        let rest = xor_fold(&digest, 8, 8);
        (cookie, cookie ^ rest)
    }

    /// A handshake body for a request sent at `now_secs` (seconds), with a cookie
    /// for the current minute.
    pub fn new(req_type: ReqType, mss: u16, flow_control: u16, src_socket_id: u16, port: u16, now_secs: u64) -> (r: Self)
        ensures
            r.cookie == cookie_of(mss, flow_control, src_socket_id, now_secs / 60).0,
            r.isn.0 == cookie_of(mss, flow_control, src_socket_id, now_secs / 60).1 % 0x8000,
            r.req_type == req_type,
            r.mss == mss,
            r.flow_control == flow_control,
            r.src_socket_id == src_socket_id,
            r.port == port,
    {
        let (cookie, hash_isn) = Self::cookie(mss, flow_control, src_socket_id, now_secs / 60);
        Handshake {
            isn: SequenceNumber::new(hash_isn),
            req_type,
            mss,
            flow_control,
            src_socket_id,
            cookie,
            port,
        }
    }

    /// The response to the request `info`: echoes its cookie, answers with its isn
    /// plus one, our maximum segment size and our socket id and port.
    pub fn reply(src_socket_id: u16, dst_socket_id: u16, info: Self, port: u16, stamp: u16) -> (r: ControlPacket)
        ensures
            r.control_type == ControlType::Handshake,
            r.dst_socket_id == dst_socket_id,
            r.stamp == stamp,
            r.meta == ControlMeta::Other(0),
            r.info matches ControlPacketInfo::Handshake(h) && h == (Handshake {
                isn: SequenceNumber(((info.isn.0 + 1) % 0x8000) as u16),
                req_type: ReqType::Response,
                mss: MAX_PACKET_SIZE,
                flow_control: FLOW_CONTROL,
                src_socket_id,
                cookie: info.cookie,
                port,
            }),
    {
        let mut isn = info.isn;
        isn.inc();
        let h = Handshake {
            isn,
            req_type: ReqType::Response,
            mss: MAX_PACKET_SIZE,
            flow_control: FLOW_CONTROL,
            src_socket_id,
            cookie: info.cookie,
            port,
        };
        ControlPacket {
            control_type: ControlType::Handshake,
            meta: ControlMeta::Other(0),
            stamp,
            dst_socket_id,
            info: ControlPacketInfo::Handshake(h),
        }
    }

    /// Accepts a response whose cookie matches the one derived for the current
    /// minute at `now_secs`, or for the minute before.
    pub fn validate(mss: u16, flow_control: u16, socket_id: u16, info: Self, now_secs: u64) -> (r: bool)
        ensures
            r == (info.cookie == cookie_of(mss, flow_control, socket_id, now_secs / 60).0 || (now_secs >= 60
                && info.cookie == cookie_of(mss, flow_control, socket_id, ((now_secs - 60) / 60) as u64).0)),
    {
        let (cookie, _) = Self::cookie(mss, flow_control, socket_id, now_secs / 60);
        if cookie == info.cookie {
            return true;
        }
        if now_secs >= 60 {
            let (previous, _) = Self::cookie(mss, flow_control, socket_id, (now_secs - 60) / 60);
            previous == info.cookie
        } else {
            false
        }
    }
}


impl ControlPacket {
    /// A handshake request or response to socket `dst_socket_id`, from socket
    /// `src_socket_id` listening on `port`, sent at `now_secs`.
    pub fn handshake(
        dst_socket_id: u16,
        req_type: ReqType,
        mss: u16,
        src_socket_id: u16,
        port: u16,
        now_secs: u64,
        stamp: u16,
    ) -> (r: Self)
        ensures
            r.control_type == ControlType::Handshake,
            r.meta == ControlMeta::Other(0),
            r.dst_socket_id == dst_socket_id,
            r.stamp == stamp,
            r.info matches ControlPacketInfo::Handshake(h) && h.cookie == cookie_of(mss, FLOW_CONTROL, src_socket_id, now_secs / 60).0
                && h.req_type == req_type && h.mss == mss && h.flow_control == FLOW_CONTROL && h.src_socket_id == src_socket_id
                && h.port == port,
            r.wf(),
    {
        let h = Handshake::new(req_type, mss, FLOW_CONTROL, src_socket_id, port, now_secs);
        ControlPacket {
            control_type: ControlType::Handshake,
            meta: ControlMeta::Other(0),
            stamp,
            dst_socket_id,
            info: ControlPacketInfo::Handshake(h),
        }
    }
}

} // verus!
