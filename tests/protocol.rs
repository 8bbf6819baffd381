use neon::congestion::CongestionController;
use neon::connection::{NeonConnection, NeonStatus, PeerAddr};
use neon::huffman::{codebook, Bitter};
use neon::loss_list::LossBuffer;
use neon::packet::control::{ControlMeta, ControlPacket, ControlPacketInfo, ControlType, Handshake, ReqType, FLOW_CONTROL};
use neon::packet::data::{DataPacket, DataPacketType};
use neon::packet::Packet;
use neon::recv_buffer::RecvBuffer;
use neon::recv_list::RecvList;
use neon::send_buffer::SendBuffer;
use neon::send_list::SendList;
use neon::send_queue::group_drops;
use neon::serial::Serial;
use neon::sha::HMAC;
use neon::utils::{MessageNumber, SequenceNumber, SequenceRange};

fn sn(x: u16) -> SequenceNumber {
    SequenceNumber(x)
}

fn range(a: u16, b: u16) -> SequenceRange {
    SequenceRange { start: sn(a), stop: sn(b) }
}

fn hex(b: &[u8]) -> String {
    b.iter().map(|x| format!("{:02x}", x)).collect()
}

fn data_packet(seq: u16, msg: u16, element: DataPacketType, dst: u16, data: Vec<u8>) -> DataPacket {
    DataPacket::new(sn(seq), MessageNumber(msg), element, true, 7, dst, data)
}

#[test]
fn sequence_length_and_diff() {
    assert_eq!(sn(3).length(&sn(3)), 1);
    assert_eq!(sn(3).length(&sn(10)), 8);
    assert_eq!(sn(0x7ffe).length(&sn(1)), 4);
    assert_eq!(sn(10).diff(sn(3)), 7);
    assert_eq!(sn(3).diff(sn(10)), 0x7ff9);
    assert_eq!(sn(1234).diff(sn(1234)), 0);
    assert_eq!(SequenceNumber::new(0x8005).0, 5);
}

#[test]
fn sequence_inc_dec_wrap() {
    let mut a = sn(0x7fff);
    a.inc();
    assert_eq!(a.0, 0);
    a.dec();
    assert_eq!(a.0, 0x7fff);
    assert!(sn(0x7ff0).before(&sn(5)));
    assert!(!sn(5).before(&sn(0x7ff0)));
    assert!(sn(0x20).probe_start());
    assert!(sn(0x21).probe_stop());
    assert!(!sn(0x22).probe_start());
}

#[test]
fn message_number_wraps() {
    let mut m = MessageNumber(0x1fff);
    m.inc();
    assert_eq!(m.0, 0);
    m.add(5);
    assert_eq!(m.0, 5);
    m.dec();
    assert_eq!(m.0, 4);
    assert_eq!(MessageNumber(0x1ffe).length(&MessageNumber(1)), 4);
}

#[test]
fn range_contains_and_overlaps() {
    assert!(range(5, 10).contains(sn(5)));
    assert!(range(5, 10).contains(sn(10)));
    assert!(!range(5, 10).contains(sn(11)));
    assert!(range(0x7ffe, 2).contains(sn(0)));
    assert!(range(5, 10).overlaps(range(10, 12)));
    assert!(!range(5, 10).overlaps(range(11, 12)));
}

#[test]
fn loss_insert_merges_overlaps() {
    let mut l = LossBuffer::new();
    l.insert(range(5, 10));
    l.insert(range(8, 15));
    assert_eq!(l.size(), 1);
    assert_eq!(l.first(), Some(range(5, 15)));
    l.insert(range(20, 25));
    assert_eq!(l.size(), 2);
    l.insert(range(12, 21));
    assert_eq!(l.size(), 1);
    assert_eq!(l.first(), Some(range(5, 25)));
}

#[test]
fn loss_insert_wrapping_range() {
    let mut l = LossBuffer::new();
    l.insert(range(0x7ff0, 3));
    l.insert(range(2, 6));
    assert_eq!(l.size(), 1);
    assert_eq!(l.first(), Some(range(0x7ff0, 6)));
}

#[test]
fn loss_remove_splits_range() {
    let mut l = LossBuffer::new();
    l.insert(range(5, 10));
    l.remove(sn(7));
    assert_eq!(l.size(), 2);
    assert_eq!(l.pop(), Some(range(5, 6)));
    assert_eq!(l.pop(), Some(range(8, 10)));
    assert_eq!(l.pop(), None);
    let mut m = LossBuffer::new();
    m.insert(range(5, 5));
    m.remove(sn(5));
    assert_eq!(m.size(), 0);
}

#[test]
fn loss_remove_confirmed_trims() {
    let mut l = LossBuffer::new();
    l.insert(range(5, 10));
    l.insert(range(20, 30));
    l.remove_confirmed(sn(25));
    assert_eq!(l.size(), 1);
    assert_eq!(l.first(), Some(range(25, 30)));
    assert_eq!(l.find(range(26, 40)), Some(range(25, 30)));
    assert_eq!(l.find(range(40, 50)), None);
}

#[test]
fn loss_encode_fits_half_segment() {
    let mut l = LossBuffer::new();
    let mut i: u16 = 0;
    while i < 40 {
        l.insert(range(i * 10, i * 10 + 2));
        i += 1;
    }
    assert_eq!(l.size(), 40);
    let enc = l.encode(128);
    assert_eq!(enc.len(), 16);
    assert!(enc.len() * 4 <= 64);
    assert_eq!(l.encode(7).len(), 0);
}

#[test]
fn data_packet_round_trip() {
    let p = data_packet(0x1234, 0x0abc, DataPacketType::First, 42, vec![9, 8, 7]);
    let bytes = Packet::Data(p).serialize();
    assert_eq!(bytes.len(), 11);
    assert_eq!(bytes[0] & 0x80, 0);
    match Packet::deserialize(&bytes) {
        Some(Packet::Data(q)) => {
            assert_eq!(q.seq_no, sn(0x1234));
            assert_eq!(q.msg_no, MessageNumber(0x0abc));
            assert_eq!(q.element, DataPacketType::First);
            assert!(q.order);
            assert_eq!(q.stamp, 7);
            assert_eq!(q.dst_socket_id, 42);
            assert_eq!(q.data, vec![9, 8, 7]);
        }
        _ => panic!("expected a data packet"),
    }
}

#[test]
fn control_packet_round_trip() {
    let ack = ControlPacket::ack(3, sn(100), sn(99), 10, 2, 5, 16, 1, 77);
    let bytes = Packet::Control(ack).serialize();
    assert_eq!(bytes.len(), 20);
    assert_eq!(bytes[0] & 0x80, 0x80);
    match Packet::deserialize(&bytes) {
        Some(Packet::Control(c)) => {
            assert_eq!(c.control_type, ControlType::Ack);
            assert_eq!(c.meta, ControlMeta::Sequence(sn(100)));
            assert_eq!(c.stamp, 77);
            assert_eq!(c.dst_socket_id, 3);
            match c.info {
                ControlPacketInfo::Ack(a) => {
                    assert_eq!(a.seq_no, sn(99));
                    assert_eq!(a.rtt, 10);
                    assert_eq!(a.bandwidth, 1);
                }
                _ => panic!("expected an ack body"),
            }
        }
        _ => panic!("expected a control packet"),
    }
    let loss = ControlPacket::loss(4, vec![range(1, 2), range(7, 9)], 0);
    match Packet::deserialize(&Packet::Control(loss).serialize()) {
        Some(Packet::Control(c)) => match c.info {
            ControlPacketInfo::Loss(l) => assert_eq!(l.loss_range, vec![range(1, 2), range(7, 9)]),
            _ => panic!("expected a loss body"),
        },
        _ => panic!("expected a control packet"),
    }
    let disc = ControlPacket::discovery(4, 128, 5, ReqType::Connection, 0);
    match Packet::deserialize(&Packet::Control(disc).serialize()) {
        Some(Packet::Control(c)) => match c.info {
            ControlPacketInfo::Discover(d) => {
                assert_eq!(d.req_type, ReqType::Connection);
                assert_eq!(d.data, vec![0xff; 5]);
            }
            _ => panic!("expected a discover body"),
        },
        _ => panic!("expected a control packet"),
    }
    let hs = ControlPacket::handshake(0xffff, ReqType::Connection, 128, 9, 8128, 600, 1);
    match Packet::deserialize(&Packet::Control(hs.clone()).serialize()) {
        Some(Packet::Control(c)) => match (c.info, hs.info) {
            (ControlPacketInfo::Handshake(a), ControlPacketInfo::Handshake(b)) => assert_eq!(a, b),
            _ => panic!("expected handshake bodies"),
        },
        _ => panic!("expected a control packet"),
    }
}

#[test]
fn deserialize_rejects_bad_input() {
    assert!(Packet::deserialize(&[]).is_none());
    assert!(Packet::deserialize(&[0x00, 1, 2]).is_none());
    assert!(Packet::deserialize(&[0x80, 0x42, 0, 0, 0, 0, 0, 0]).is_none());
    assert!(Packet::deserialize(&[0x80, 0x02, 0, 0, 0, 0, 0, 0, 1]).is_none());
}

#[test]
fn sha256_known_vectors() {
    assert_eq!(
        hex(&neon::sha::Hash::hash(b"abc")),
        "ba7816bf8f01cfea414140de5dae2223b00361a396177a9cb410ff61f20015ad"
    );
    assert_eq!(
        hex(&neon::sha::Hash::hash(b"")),
        "e3b0c44298fc1c149afbf4c8996fb92427ae41e4649b934ca495991b7852b855"
    );
    let long = vec![b'a'; 200];
    let mut h = neon::sha::Hash::new();
    h.update(&long[..100]);
    h.update(&long[100..]);
    assert_eq!(h.finalize(), neon::sha::Hash::hash(&long));
}

#[test]
fn hmac_known_vector() {
    let key = vec![0x0b; 20];
    assert_eq!(
        hex(&HMAC::mac(b"Hi There", &key)),
        "b0344c61d8db38535ca8afceaf0bf12b881dc200c9833da726e9376c2e32cff7"
    );
}

#[test]
fn cookie_is_stable_within_a_minute() {
    let a = Handshake::cookie(128, FLOW_CONTROL, 7, 1000);
    let b = Handshake::cookie(128, FLOW_CONTROL, 7, 1000);
    let c = Handshake::cookie(128, FLOW_CONTROL, 7, 1001);
    assert_eq!(a, b);
    assert_ne!(a, c);
    let h = Handshake::new(ReqType::Connection, 128, FLOW_CONTROL, 7, 9000, 60_000 + 30);
    assert!(Handshake::validate(128, FLOW_CONTROL, 7, h, 60_000 + 59));
    assert!(Handshake::validate(128, FLOW_CONTROL, 7, h, 60_000 + 61));
    assert!(!Handshake::validate(128, FLOW_CONTROL, 7, h, 60_000 + 200));
    assert!(!Handshake::validate(128, FLOW_CONTROL, 8, h, 60_000 + 30));
}

#[test]
fn handshake_reply_echoes_cookie() {
    let h = Handshake::new(ReqType::Connection, 100, FLOW_CONTROL, 7, 9000, 120);
    let r = Handshake::reply(11, 7, h, 8128, 3);
    assert_eq!(r.dst_socket_id, 7);
    match r.info {
        ControlPacketInfo::Handshake(x) => {
            assert_eq!(x.cookie, h.cookie);
            assert_eq!(x.isn.0, (h.isn.0 + 1) % 0x8000);
            assert_eq!(x.req_type, ReqType::Response);
            assert_eq!(x.mss, 128);
            assert_eq!(x.src_socket_id, 11);
            assert_eq!(x.port, 8128);
        }
        _ => panic!("expected a handshake body"),
    }
}

#[test]
fn bitter_bytes_round_trip() {
    let mut b = Bitter::new();
    b.add_u8(0xa5);
    b.push(true);
    assert_eq!(b.len(), 9);
    let mut p = 0;
    assert_eq!(b.get_u8(&mut p), 0xa5);
    assert!(b.get(&mut p));
    assert_eq!(b.serialize(), vec![0xa5, 0x01]);
    let back = Bitter::deserialize(&[0xa5, 0x01], 0);
    assert_eq!(back.len(), 16);
}

#[test]
fn huffman_round_trip() {
    let inputs: Vec<Vec<u8>> = vec![
        vec![1, 2, 3, 4, 5, 6, 7, 8],
        vec![0, 0, 0, 0],
        vec![],
        (0..=255u8).collect(),
        (0..300u32).map(|i| (i % 7) as u8).collect(),
    ];
    for x in inputs {
        let c = DataPacket::compress(&x);
        assert_eq!(DataPacket::decompress(&c), x);
    }
}

#[test]
fn codebook_gives_prefix_codes() {
    let (book, tree) = codebook(&vec![(1, 5), (2, 1), (3, 1)]);
    assert_eq!(book.len(), 3);
    let mut bits = Bitter::new();
    book.encode(&mut bits, &3).unwrap();
    book.encode(&mut bits, &1).unwrap();
    assert_eq!(tree.decoder(&bits, 2), vec![3, 1]);
    assert!(book.encode(&mut bits, &9).is_err());
}

fn deliver(send: &mut SendBuffer, recv: &mut RecvBuffer, now: u64) {
    while let Some(p) = send.read(now) {
        recv.add(p);
    }
}

#[test]
fn single_fragment_message() {
    let mut send = SendBuffer::new(sn(100), 0);
    let mut recv = RecvBuffer::new(sn(100), 0);
    let n = send.add(&[1, 2, 3, 4, 5, 6, 7, 8], 1_000_000, true, 5, 128, 0, 0);
    assert_eq!(n, 1);
    deliver(&mut send, &mut recv, 10);
    assert_eq!(recv.pop(), Some(vec![1, 2, 3, 4, 5, 6, 7, 8]));
    assert_eq!(recv.pop(), None);
}

#[test]
fn multi_fragment_reassembly() {
    let payload: Vec<u8> = (0..256u32).map(|i| (i * 7 % 256) as u8).collect();
    let mut send = SendBuffer::new(sn(0x7ffe), 0);
    let mut recv = RecvBuffer::new(sn(0x7ffe), 0);
    let n = send.add(&payload, 1_000_000, true, 5, 128, 0, 0);
    assert!(n >= 2);
    let mut packets = Vec::new();
    while let Some(p) = send.read(10) {
        packets.push(p);
    }
    assert_eq!(packets.len(), n);
    packets.reverse();
    let last = packets.pop().unwrap();
    for p in packets {
        recv.add(p);
        assert_eq!(recv.pop(), None);
    }
    recv.add(last);
    assert_eq!(recv.pop(), Some(payload));
}

#[test]
fn selective_retransmission() {
    let mut send = SendList::new();
    let mut recv = RecvList::new();
    send.register_connection(1, sn(0), 0);
    recv.register_connection(1, sn(0), 0);
    let payload: Vec<u8> = (0..600u32).map(|i| (i * 13 % 251) as u8).collect();
    let n = send.insert(1, &payload, 10_000_000, true, 1, 128, 0, 0);
    assert!(n >= 4);
    let mut sent = Vec::new();
    for _ in 0..n {
        match send.pop(1, 10) {
            Some(Packet::Data(p)) => sent.push(p),
            _ => panic!("expected a data packet"),
        }
    }
    let dropped = sent.remove(1);
    for p in sent {
        recv.add_data(p, 20);
    }
    let losses = recv.report_loss(1, 128);
    assert_eq!(losses, vec![SequenceRange { start: dropped.seq_no, stop: dropped.seq_no }]);
    assert_eq!(recv.pop_data(1), None);
    for r in &losses {
        send.loss(1, *r);
    }
    match send.pop(1, 30) {
        Some(Packet::Data(p)) => {
            assert_eq!(p.seq_no, dropped.seq_no);
            recv.add_data(p, 40);
        }
        _ => panic!("expected the retransmission"),
    }
    assert_eq!(recv.pop_data(1), Some(payload));
    assert!(recv.report_loss(1, 128).is_empty());
}

#[test]
fn ttl_drop_notification() {
    let mut send = SendBuffer::new(sn(0), 0);
    send.add(&[7u8; 128], 1_000, true, 2, 128, 0, 0);
    send.add(&[1, 2, 3], 10_000_000, true, 2, 128, 50_000, 0);
    let p = send.read(100_000).unwrap();
    assert_eq!(p.msg_no, MessageNumber(1));
    let drops = send.drop();
    assert!(!drops.is_empty());
    assert!(drops.iter().all(|(m, _)| *m == MessageNumber(0)));
    assert!(send.drop().is_empty());
    let mut recv = RecvBuffer::new(sn(0), 0);
    let first_seq = drops[0].1;
    let last_seq = drops[drops.len() - 1].1;
    recv.drop_msg(MessageNumber(0), SequenceRange { start: first_seq, stop: last_seq });
    recv.add(p);
    assert_eq!(recv.pop(), Some(vec![1, 2, 3]));
}

#[test]
fn two_connections_keep_their_payloads() {
    let mut send = SendList::new();
    let mut recv = RecvList::new();
    for id in [1u16, 2u16] {
        send.register_connection(id, sn(10), 0);
        recv.register_connection(id, sn(10), 0);
    }
    send.insert(1, &[1, 2, 3, 4, 5, 6, 7, 8], 1_000_000, true, 1, 128, 0, 0);
    send.insert(2, &[1, 1, 2, 3, 5, 8, 13, 21], 1_000_000, true, 2, 128, 0, 0);
    for id in [2u16, 1u16] {
        while let Some(Packet::Data(p)) = send.pop(id, 5) {
            recv.add_data(p, 6);
        }
    }
    assert_eq!(recv.pop_data(1), Some(vec![1, 2, 3, 4, 5, 6, 7, 8]));
    assert_eq!(recv.pop_data(2), Some(vec![1, 1, 2, 3, 5, 8, 13, 21]));
    assert_eq!(recv.pop_data(3), None);
}

#[test]
fn receive_buffer_delivers_in_message_order() {
    let mut send = SendBuffer::new(sn(0), 0);
    let mut recv = RecvBuffer::new(sn(0), 0);
    send.add(&[10], 1_000_000, true, 0, 128, 0, 0);
    send.add(&[20], 1_000_000, true, 0, 128, 0, 0);
    let first = send.read(1).unwrap();
    let second = send.read(1).unwrap();
    assert!(recv.add(second).is_some());
    assert_eq!(recv.pop(), None);
    recv.add(first);
    assert_eq!(recv.pop(), Some(vec![10]));
    assert_eq!(recv.pop(), Some(vec![20]));
    assert_eq!(recv.pop(), None);
}

#[test]
fn ack_never_moves_back() {
    let mut send = SendBuffer::new(sn(100), 0);
    let payload: Vec<u8> = (0..64u8).collect();
    assert!(send.add(&payload, 1_000_000, true, 0, 16, 0, 0) > 4);
    while send.read(1).is_some() {}
    assert!(send.ack(sn(103), 20_000));
    assert_eq!(send.last_ack(), sn(103));
    assert!(send.ack(sn(101), 40_000));
    assert_eq!(send.last_ack(), sn(103));
    assert!(send.ack(sn(103), 40_001));
    assert!(!send.ack(sn(104), 40_002));
    send.ack_square(sn(103), 0);
    send.ack_square(sn(102), 0);
    assert_eq!(send.keep_alive(), Some(SequenceRange { start: sn(103), stop: send.last_seq() }));
}

#[test]
fn congestion_estimates() {
    let mut c = CongestionController::new(0);
    assert_eq!(c.rtt(), (10, 1));
    c.update_rtt(80);
    assert_eq!(c.rtt(), (10_008, 19_998));
    assert_eq!(c.long_poll(), 90_000);
    c.update_recv_rate(100);
    c.update_bandwidth(9);
    assert_eq!(c.next_time(), 1);
    assert_eq!(c.next_ack(), 10_000);
    assert!(!c.should_ack());
    c.inc_pkt_cnt();
    c.on_loss(sn(5));
    assert_eq!(c.next_time(), 1_000_000 / 27);
    c.on_timeout();
    assert_eq!(c.next_time(), 1_000_000 / 27);
}

#[test]
fn congestion_leaves_slow_start_on_ack() {
    let mut c = CongestionController::new(0);
    c.on_ack(sn(100), 5_000);
    assert_eq!(c.next_time(), 1);
    c.on_ack(sn(100), 20_000);
    assert_eq!(c.next_time(), 58_823);
}

#[test]
fn connection_validates_and_establishes() {
    let peer = PeerAddr { ip: 0x7f00_0001, port: 9000 };
    let mut c = NeonConnection::new(sn(1), NeonStatus::Connecting, 0, peer, peer, 128, 128, 0);
    assert!(c.validate(peer, 5));
    assert!(!c.validate(PeerAddr { ip: 1, port: 9000 }, 6));
    c.negotiate(3, 44, 9001);
    assert_eq!(c.status(), NeonStatus::Negotiating);
    assert_eq!(c.partner_id(), 44);
    c.establish(100, 120);
    c.establish(110, 90);
    assert_eq!(c.mss(), (100, 90));
    assert_eq!(c.status(), NeonStatus::Established);
    c.error(9);
    assert_eq!(c.status(), NeonStatus::Unhealthy(9));
}

#[test]
fn keep_alive_escalates_to_unhealthy() {
    let peer = PeerAddr { ip: 1, port: 1 };
    let mut c = NeonConnection::new(sn(1), NeonStatus::Healthy, 0, peer, peer, 128, 128, 0);
    assert!(!c.should_keep_alive(0, 0, 100_000));
    assert!(c.should_keep_alive(0, 0, 700_000));
    let mut now = 1_000_000_000;
    let mut alive = true;
    for _ in 0..20 {
        alive = c.should_keep_alive(0, 0, now);
        now += 1;
    }
    assert!(!alive);
    assert_eq!(c.status(), NeonStatus::Unhealthy(1));
}

#[test]
fn drops_group_per_message() {
    let pairs = vec![
        (MessageNumber(3), sn(10)),
        (MessageNumber(3), sn(11)),
        (MessageNumber(3), sn(12)),
        (MessageNumber(4), sn(13)),
    ];
    assert_eq!(
        group_drops(&pairs),
        vec![(MessageNumber(3), range(10, 12)), (MessageNumber(4), range(13, 13))]
    );
    assert!(group_drops(&vec![]).is_empty());
}

use neon::dispatch::{CoreError, NeonCore};

const LISTENER: PeerAddr = PeerAddr { ip: 0x7f00_0001, port: 8128 };

/// Moves packets between the cores until none is left in flight.
fn pump(listener: &mut NeonCore, clients: &mut Vec<(PeerAddr, NeonCore)>, mut flight: Vec<(PeerAddr, PeerAddr, Packet)>) {
    let mut rounds = 0;
    while let Some((from, to, packet)) = flight.pop() {
        rounds += 1;
        assert!(rounds < 1000);
        let wire = packet.serialize();
        let packet = Packet::deserialize(&wire).unwrap();
        if to.port == LISTENER.port {
            for (dst, p) in listener.process_packet(from, packet, 1_000, 6_000, 1) {
                flight.push((LISTENER, dst, p));
            }
        } else {
            for (addr, core) in clients.iter_mut() {
                if addr.port == to.port {
                    for (dst, p) in core.process_packet(from, packet, 1_000, 6_000, 1) {
                        flight.push((*addr, dst, p));
                    }
                    break;
                }
            }
        }
    }
}

fn connect(listener: &mut NeonCore, clients: &mut Vec<(PeerAddr, NeonCore)>, i: usize) -> u16 {
    let addr = clients[i].0;
    let sid = clients[i].1.inc_socket_id();
    let (res, out) = clients[i].1.handshake(LISTENER, sid, 0, 6_000, 1);
    assert_eq!(res, Err(CoreError::NotConnected));
    let flight = out.into_iter().map(|(d, p)| (addr, d, p)).collect();
    pump(listener, clients, flight);
    let (res, out) = clients[i].1.handshake(LISTENER, sid, 0, 6_000, 1);
    assert_eq!(res, Ok(()));
    assert!(out.is_empty());
    sid
}

fn send_all(listener: &mut NeonCore, clients: &mut Vec<(PeerAddr, NeonCore)>, i: usize, sid: u16, data: &[u8]) {
    let addr = clients[i].0;
    assert_eq!(clients[i].1.send_data(sid, data, 1_000_000, true, 2_000, 1), Ok(()));
    while let Some((id, _)) = clients[i].1.next_time(3_000) {
        let out = clients[i].1.send_packet(id, 3_000, 1);
        let flight = out.into_iter().map(|(d, p)| (addr, d, p)).collect();
        pump(listener, clients, flight);
    }
}

#[test]
fn handshake_convergence() {
    let mut listener = NeonCore::new(LISTENER.port);
    let client = PeerAddr { ip: 0x7f00_0001, port: 9000 };
    let mut clients = vec![(client, NeonCore::new(9000))];
    connect(&mut listener, &mut clients, 0);
    assert!(listener.next_stream().is_some());
    assert!(listener.next_stream().is_none());
}

#[test]
fn core_single_fragment_message() {
    let mut listener = NeonCore::new(LISTENER.port);
    let client = PeerAddr { ip: 0x7f00_0001, port: 9000 };
    let mut clients = vec![(client, NeonCore::new(9000))];
    let sid = connect(&mut listener, &mut clients, 0);
    let stream = listener.next_stream().unwrap();
    send_all(&mut listener, &mut clients, 0, sid, &[1, 2, 3, 4, 5, 6, 7, 8]);
    assert_eq!(listener.read_data(stream), Some(vec![1, 2, 3, 4, 5, 6, 7, 8]));
    assert_eq!(listener.read_data(stream), None);
}

#[test]
fn core_two_connections_on_one_listener() {
    let mut listener = NeonCore::new(LISTENER.port);
    let a = PeerAddr { ip: 0x7f00_0001, port: 8000 };
    let b = PeerAddr { ip: 0x7f00_0001, port: 9000 };
    let mut clients = vec![(a, NeonCore::new(8000)), (b, NeonCore::new(9000))];
    let sa = connect(&mut listener, &mut clients, 0);
    let first = listener.next_stream().unwrap();
    let sb = connect(&mut listener, &mut clients, 1);
    let second = listener.next_stream().unwrap();
    assert_ne!(first, second);
    send_all(&mut listener, &mut clients, 0, sa, &[1, 2, 3, 4, 5, 6, 7, 8]);
    send_all(&mut listener, &mut clients, 1, sb, &[1, 1, 2, 3, 5, 8, 13, 21]);
    assert_eq!(listener.read_data(first), Some(vec![1, 2, 3, 4, 5, 6, 7, 8]));
    assert_eq!(listener.read_data(second), Some(vec![1, 1, 2, 3, 5, 8, 13, 21]));
}

#[test]
fn core_drops_unknown_and_spoofed_packets() {
    let mut core = NeonCore::new(1);
    let stray = Packet::Control(ControlPacket::keep_alive(5, 0));
    assert!(core.process_packet(LISTENER, stray, 0, 0, 0).is_empty());
    assert_eq!(core.send_data(5, &[1], 10, true, 0, 0), Err(CoreError::NotConnected));
}

#[test]
fn loss_remove_range_cuts() {
    let mut l = LossBuffer::new();
    l.insert(range(5, 20));
    l.remove_range(range(8, 10));
    assert_eq!(l.size(), 2);
    assert_eq!(l.pop(), Some(range(5, 7)));
    assert_eq!(l.pop(), Some(range(11, 20)));
    let mut m = LossBuffer::new();
    m.insert(range(5, 20));
    m.remove_range(range(0, 30));
    assert_eq!(m.size(), 0);
    let mut w = LossBuffer::new();
    w.insert(range(5, 20));
    w.remove_range(range(15, 7));
    assert_eq!(w.first(), Some(range(8, 14)));
    assert_eq!(w.size(), 1);
}

#[test]
fn ack_window_measures_round_trip() {
    let mut w = neon::window::ack_window::Window::new(2_000_000);
    w.store(sn(5), sn(6), 1_000);
    w.store(sn(7), sn(8), 2_000);
    let mut ack = sn(0);
    assert_eq!(w.acknowledge(sn(5), &mut ack, 4_000), 3_000);
    assert_eq!(ack, sn(6));
    assert_eq!(w.acks.len(), 1);
    assert_eq!(w.acknowledge(sn(5), &mut ack, 5_000), 0);
    w.store(sn(9), sn(9), 3_000_000);
    assert_eq!(w.acks.len(), 1);
}

#[test]
fn time_window_records_gaps() {
    let mut t = neon::window::time_window::TimeWindow::new(0);
    t.on_packet_arrival(5_000);
    t.probe_start(6_000);
    t.probe_stop(9_000);
    t.on_packet_sent(10_000);
    assert_eq!(t.receive_speed(), 0);
    assert_eq!(t.bandwidth(), 0);
}
