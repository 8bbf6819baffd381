use vstd::prelude::*;
use crate::congestion::{ack_delay, CongestionController, CongestionView};
use crate::packet::data::{decompressed, DataPacket, DataPacketType};
use crate::send_buffer::SYN_INTERVAL;
use crate::serial::{append_bytes, tail};
use crate::utils::{seq_before, seq_off, seq_offset, MessageNumber, SequenceNumber, SequenceRange};
use crate::window::ack_window::Window;

verus! {

/// Whether all fragments of a message have arrived.
#[derive(Copy, Clone, Debug, PartialEq, Eq, Structural)]
pub enum BlockState {
    Complete,
    Partial,
}

/// Index of the first fragment of kind `e`, or -1.
pub open spec fn first_index(d: Seq<DataPacket>, e: DataPacketType) -> int
    decreases d.len(),
{
    if d.len() == 0 {
        -1
    } else {
        let r = first_index(d.drop_last(), e);
        if r >= 0 {
            r
        } else if d.last().element == e {
            d.len() - 1
        } else {
            -1
        }
    }
}

/// Some fragment lies `k` steps after sequence number `s`.
pub open spec fn holds_offset(d: Seq<DataPacket>, s: int, k: int) -> bool {
    exists|j: int| 0 <= j < d.len() && seq_off(s, d[j].seq_no.0 as int) == k
}

/// The fragment `k` steps after `s`.
pub open spec fn frag_at(d: Seq<DataPacket>, s: int, k: int) -> DataPacket {
    d[choose|j: int| 0 <= j < d.len() && seq_off(s, d[j].seq_no.0 as int) == k]
}

/// A message is complete when it is a single `Solo` fragment, or when its `First`
/// and `Last` fragments bound a run of consecutive sequence numbers that holds
/// exactly its fragments.
#[verifier::opaque]
pub open spec fn frags_complete(d: Seq<DataPacket>) -> bool {
    d.len() > 0 && ((d.len() == 1 && d[0].element == DataPacketType::Solo) || {
        let f = first_index(d, DataPacketType::First);
        let l = first_index(d, DataPacketType::Last);
        f >= 0 && l >= 0 && d.len() == seq_off(d[f].seq_no.0 as int, d[l].seq_no.0 as int) + 1
            && forall|k: int| 0 <= k < d.len() ==> #[trigger] holds_offset(d, d[f].seq_no.0 as int, k)
    })
}

/// Payloads of the `n` fragments after `s`, in sequence order.
pub open spec fn concat_from(d: Seq<DataPacket>, s: int, n: int) -> Seq<u8>
    decreases n,
{
    if n <= 0 {
        Seq::empty()
    } else {
        concat_from(d, s, n - 1) + frag_at(d, s, n - 1).data@
    }
}

/// The compressed payload of a complete message.
pub open spec fn assembled(d: Seq<DataPacket>) -> Seq<u8> {
    if d.len() == 1 && d[0].element == DataPacketType::Solo {
        d[0].data@
    } else {
        concat_from(d, d[first_index(d, DataPacketType::First)].seq_no.0 as int, d.len() as int)
    }
}

/// No two fragments share a sequence number.
#[verifier::opaque]
pub open spec fn distinct_seqs(d: Seq<DataPacket>) -> bool {
    forall|i: int, j: int| 0 <= i < d.len() && 0 <= j < d.len() && i != j ==> d[i].seq_no != d[j].seq_no
}

proof fn lemma_first_index(d: Seq<DataPacket>, e: DataPacketType)
    ensures
        first_index(d, e) >= 0 ==> first_index(d, e) < d.len() && d[first_index(d, e)].element == e,
        first_index(d, e) == -1 || first_index(d, e) >= 0,
    decreases d.len(),
{
    if d.len() > 0 {
        lemma_first_index(d.drop_last(), e);
    }
}

/// A first match within a prefix is the first match of the whole sequence.
proof fn lemma_first_index_prefix(d: Seq<DataPacket>, e: DataPacketType, i: int)
    requires
        0 <= i <= d.len(),
        first_index(d.take(i), e) >= 0,
    ensures
        first_index(d, e) == first_index(d.take(i), e),
    decreases d.len() - i,
{
    if i < d.len() {
        assert(d.take(i + 1).drop_last() =~= d.take(i));
        assert(first_index(d.take(i + 1), e) == first_index(d.take(i), e));
        lemma_first_index_prefix(d, e, i + 1);
    } else {
        assert(d.take(i) =~= d);
    }
}

proof fn lemma_unique_offset(d: Seq<DataPacket>, s: int, k: int, a: int, b: int)
    requires
        distinct_seqs(d),
        0 <= s < 0x8000,
        0 <= a < d.len(),
        0 <= b < d.len(),
        d[a].seq_no.wf(),
        d[b].seq_no.wf(),
        seq_off(s, d[a].seq_no.0 as int) == k,
        seq_off(s, d[b].seq_no.0 as int) == k,
    ensures
        a == b,
{
    reveal(distinct_seqs);
    assert(d[a].seq_no == d[b].seq_no);
}

/// The fragments received so far of one message.
#[derive(Clone, Debug)]
pub struct RecvBlock {
    msg_no: MessageNumber,
    stamp: u16,
    data: Vec<DataPacket>,
    state: BlockState,
}

pub struct RecvBlockView {
    pub msg_no: MessageNumber,
    pub stamp: u16,
    pub data: Seq<DataPacket>,
    pub state: BlockState,
}

impl View for RecvBlock {
    type V = RecvBlockView;

    closed spec fn view(&self) -> RecvBlockView {
        RecvBlockView {
            msg_no: self.msg_no,
            stamp: self.stamp,
            data: self.data@,
            state: self.state,
        }
    }
}

pub open spec fn block_wf(b: RecvBlockView) -> bool {
    &&& b.data.len() > 0
    &&& distinct_seqs(b.data)
    &&& forall|i: int| 0 <= i < b.data.len() ==> (#[trigger] b.data[i]).seq_no.wf()
    &&& (b.state == BlockState::Complete) == frags_complete(b.data)
}

impl RecvBlock {
    /// Index of the first fragment of kind `e`.
    fn index_of(&self, e: DataPacketType) -> (r: Option<usize>)
        ensures
            match r {
                Some(k) => first_index(self@.data, e) == k as int && (k as int) < self@.data.len(),
                None => first_index(self@.data, e) == -1,
            },
    {
        let ghost d = self@.data;
        let mut i: usize = 0;
        while i < self.data.len()
            invariant
                0 <= i <= d.len(),
                d == self@.data,
                first_index(d.take(i as int), e) == -1,
            decreases d.len() - i,
        {
            proof {
                assert(d.take(i + 1).drop_last() =~= d.take(i as int));
                assert(d.take(i + 1).last() == d[i as int]);
            }
            if self.data[i].element == e {
                proof {
                    lemma_first_index_prefix(d, e, i as int + 1);
                }
                return Some(i);
            }
            i = i + 1;
        }
        proof {
            assert(d.take(d.len() as int) =~= d);
        }
        None
    }

    /// Index of the fragment `k` steps after `s`.
    fn find_offset(&self, s: u16, k: u16) -> (r: Option<usize>)
        requires
            s < 0x8000,
            forall|i: int| 0 <= i < self@.data.len() ==> (#[trigger] self@.data[i]).seq_no.wf(),
        ensures
            match r {
                Some(j) => (j as int) < self@.data.len() && seq_off(s as int, self@.data[j as int].seq_no.0 as int) == k,
                None => !holds_offset(self@.data, s as int, k as int),
            },
    {
        let ghost d = self@.data;
        let mut i: usize = 0;
        while i < self.data.len()
            invariant
                0 <= i <= d.len(),
                d == self@.data,
                s < 0x8000,
                forall|t: int| 0 <= t < d.len() ==> (#[trigger] d[t]).seq_no.wf(),
                forall|j: int| 0 <= j < i ==> seq_off(s as int, d[j].seq_no.0 as int) != k,
            decreases d.len() - i,
        {
            proof {
                assert(d[i as int].seq_no.wf());
            }
            if seq_offset(s, self.data[i].seq_no.0) == k {
                return Some(i);
            }
            i = i + 1;
        }
        None
    }

    /// Re-evaluates whether the message is complete.
    pub fn update_state(&mut self)
        requires
            old(self)@.data.len() > 0,
            forall|i: int| 0 <= i < old(self)@.data.len() ==> (#[trigger] old(self)@.data[i]).seq_no.wf(),
        ensures
            final(self)@ == (RecvBlockView {
                state: if frags_complete(old(self)@.data) { BlockState::Complete } else { BlockState::Partial },
                ..old(self)@
            }),
    {
        let complete = self.check_complete();
        self.state = if complete { BlockState::Complete } else { BlockState::Partial };
    }

    fn check_complete(&self) -> (r: bool)
        requires
            self@.data.len() > 0,
            forall|i: int| 0 <= i < self@.data.len() ==> (#[trigger] self@.data[i]).seq_no.wf(),
        ensures
            r == frags_complete(self@.data),
    {
        let ghost d = self@.data;
        if self.data.len() == 1 && self.data[0].element == DataPacketType::Solo {
            proof {
                reveal(frags_complete);
            }
            return true;
        }
        let f = match self.index_of(DataPacketType::First) {
            Some(f) => f,
            None => {
                proof {
                    reveal(frags_complete);
                }
                return false;
            },
        };
        let l = match self.index_of(DataPacketType::Last) {
            Some(l) => l,
            None => {
                proof {
                    reveal(frags_complete);
                }
                return false;
            },
        };
        proof {
            assert(d[f as int].seq_no.wf() && d[l as int].seq_no.wf());
        }
        let s = self.data[f].seq_no.0;
        let n = seq_offset(s, self.data[l].seq_no.0);
        if self.data.len() != n as usize + 1 {
            proof {
                reveal(frags_complete);
            }
            return false;
        }
        let mut k: u16 = 0;
        while k <= n
            invariant
                0 <= k <= n + 1,
                n < 0x8000,
                s < 0x8000,
                d == self@.data,
                d.len() == n + 1,
                f < d.len(),
                !(d.len() == 1 && d[0].element == DataPacketType::Solo),
                first_index(d, DataPacketType::First) == f as int,
                s == d[f as int].seq_no.0,
                forall|t: int| 0 <= t < d.len() ==> (#[trigger] d[t]).seq_no.wf(),
                forall|t: int| 0 <= t < k ==> #[trigger] holds_offset(d, s as int, t),
            decreases n + 1 - k,
        {
            match self.find_offset(s, k) {
                Some(j) => {
                    proof {
                        assert(holds_offset(d, s as int, k as int));
                    }
                },
                None => {
                    proof {
                        reveal(frags_complete);
                        assert(!holds_offset(d, s as int, k as int));
                        if frags_complete(d) {
                            assert(first_index(d, DataPacketType::First) == f as int);
                            assert(holds_offset(d, d[f as int].seq_no.0 as int, k as int));
                            assert(false);
                        }
                    }
                    return false;
                },
            }
            k = k + 1;
        }
        proof {
            reveal(frags_complete);
        }
        true
    }

    /// The payloads concatenated in sequence order (still compressed).
    pub fn assemble(&self) -> (r: Vec<u8>)
        requires
            block_wf(self@),
            self@.state == BlockState::Complete,
        ensures
            r@ == assembled(self@.data),
    {
        let ghost d = self@.data;
        if self.data.len() == 1 && self.data[0].element == DataPacketType::Solo {
            return tail(self.data[0].data.as_slice(), 0);
        }
        proof {
            reveal(frags_complete);
        }
        let f = self.index_of(DataPacketType::First).unwrap();
        let s = self.data[f].seq_no.0;
        proof {
            assert(d[f as int].seq_no.wf());
            reveal(frags_complete);
            assert(forall|k: int| 0 <= k < d.len() ==> #[trigger] holds_offset(d, s as int, k));
        }
        let n = self.data.len();
        proof {
            lemma_first_index(d, DataPacketType::Last);
            lemma_first_index(d, DataPacketType::First);
            let l = first_index(d, DataPacketType::Last);
            assert(0 <= l < d.len());
            assert(d[l].seq_no.wf());
            assert(n == seq_off(d[f as int].seq_no.0 as int, d[l].seq_no.0 as int) + 1);
        }
        let mut out: Vec<u8> = Vec::new();
        let mut k: usize = 0;
        while k < n
            invariant
                0 <= k <= n,
                n == d.len(),
                n <= 0x8000,
                d == self@.data,
                s < 0x8000,
                s == d[first_index(d, DataPacketType::First)].seq_no.0,
                distinct_seqs(d),
                forall|t: int| 0 <= t < d.len() ==> (#[trigger] d[t]).seq_no.wf(),
                forall|t: int| 0 <= t < d.len() ==> #[trigger] holds_offset(d, s as int, t),
                !(d.len() == 1 && d[0].element == DataPacketType::Solo),
                out@ == concat_from(d, s as int, k as int),
            decreases n - k,
        {
            proof {
                assert(holds_offset(d, s as int, k as int));
            }
            let j = self.find_offset(s, k as u16).unwrap();
            proof {
                let c = choose|t: int| 0 <= t < d.len() && seq_off(s as int, d[t].seq_no.0 as int) == k;
                lemma_unique_offset(d, s as int, k as int, c, j as int);
                assert(frag_at(d, s as int, k as int) == d[j as int]);
            }
            let payload = tail(self.data[j].data.as_slice(), 0);
            append_bytes(&mut out, &payload);
            proof {
                assert(payload@ =~= d[j as int].data@);
            }
            k = k + 1;
        }
        out
    }

    /// The message bytes: the assembled payload, decompressed.
    pub fn to_bytes(&self) -> (r: Vec<u8>)
        requires
            block_wf(self@),
            self@.state == BlockState::Complete,
        ensures
            r@ == decompressed(assembled(self@.data)),
    {
        let raw = self.assemble();
        DataPacket::decompress(raw.as_slice())
    }
}


impl RecvBlock {
    /// A block holding one fragment.
    fn single(packet: DataPacket) -> (r: RecvBlock)
        requires
            packet.wf(),
        ensures
            block_wf(r@),
            r@.msg_no == packet.msg_no,
            r@.data == seq![packet],
    {
        let msg_no = packet.msg_no;
        let stamp = packet.stamp;
        let mut data: Vec<DataPacket> = Vec::new();
        data.push(packet);
        let mut b = RecvBlock { msg_no, stamp, data, state: BlockState::Partial };
        proof {
            assert(b@.data =~= seq![packet]);
            reveal(distinct_seqs);
        }
        b.update_state();
        b
    }

    /// Adds a fragment unless one with its sequence number is already held.
    fn insert(&mut self, packet: DataPacket)
        requires
            block_wf(old(self)@),
            packet.wf(),
        ensures
            block_wf(final(self)@),
            final(self)@.msg_no == old(self)@.msg_no,
            (exists|j: int| 0 <= j < old(self)@.data.len() && old(self)@.data[j].seq_no == packet.seq_no) ==> final(self)@.data == old(self)@.data,
            !(exists|j: int| 0 <= j < old(self)@.data.len() && old(self)@.data[j].seq_no == packet.seq_no) ==> final(self)@.data == old(self)@.data.push(packet),
    {
        let mut i: usize = 0;
        while i < self.data.len()
            invariant
                0 <= i <= self@.data.len(),
                self@ == old(self)@,
                block_wf(old(self)@),
                forall|j: int| 0 <= j < i ==> self@.data[j].seq_no != packet.seq_no,
            decreases self@.data.len() - i,
        {
            if self.data[i].seq_no == packet.seq_no {
                return;
            }
            i = i + 1;
        }
        let ghost before = self@.data;
        self.data.push(packet);
        proof {
            reveal(distinct_seqs);
            assert(self@.data == before.push(packet));
            assert forall|a: int, b: int| 0 <= a < self@.data.len() && 0 <= b < self@.data.len() && a != b implies self@.data[a].seq_no != self@.data[b].seq_no by {
                if a < before.len() && b < before.len() {
                } else if a < before.len() {
                    assert(self@.data[b] == packet);
                } else {
                    assert(self@.data[a] == packet);
                }
            }
            assert forall|t: int| 0 <= t < self@.data.len() implies (#[trigger] self@.data[t]).seq_no.wf() by {
                if t < before.len() {
                    assert(self@.data[t] == before[t]);
                }
            }
        }
        self.update_state();
    }
}

/// Reassembly state of one connection's incoming messages, with the
/// acknowledgement bookkeeping and the congestion controller that drive ACKs.
pub struct RecvBuffer {
    last_msg: MessageNumber,
    last_seq: SequenceNumber,
    last_ack: SequenceNumber,
    last_ack_square: SequenceNumber,
    last_ack_time: u64,
    last_ack_square_time: u64,
    next_ack_time: u64,
    ack_window: Window,
    congestion: CongestionController,
    blocks: Vec<RecvBlock>,
}

pub struct RecvBufferView {
    pub last_msg: MessageNumber,
    pub last_seq: SequenceNumber,
    pub last_ack: SequenceNumber,
    pub last_ack_square: SequenceNumber,
    pub last_ack_time: u64,
    pub next_ack_time: u64,
    pub congestion: CongestionView,
    pub blocks: Seq<RecvBlockView>,
}

impl View for RecvBuffer {
    type V = RecvBufferView;

    closed spec fn view(&self) -> RecvBufferView {
        RecvBufferView {
            last_msg: self.last_msg,
            last_seq: self.last_seq,
            last_ack: self.last_ack,
            last_ack_square: self.last_ack_square,
            last_ack_time: self.last_ack_time,
            next_ack_time: self.next_ack_time,
            congestion: self.congestion@,
            blocks: self.blocks@.map_values(|b: RecvBlock| b@),
        }
    }
}

/// Index of the block of message `m`, or -1.
pub open spec fn block_index(bs: Seq<RecvBlockView>, m: MessageNumber) -> int {
    if exists|k: int| 0 <= k < bs.len() && bs[k].msg_no == m {
        choose|k: int| 0 <= k < bs.len() && bs[k].msg_no == m
    } else {
        -1
    }
}

/// A timed ACK is due at `now`, or enough packets arrived for a light ACK.
pub open spec fn ack_due(o: RecvBufferView, now: u64) -> bool {
    now >= o.next_ack_time || (o.congestion.ack_interval > 0 && o.congestion.ack_interval < o.congestion.pkt_count)
}

/// `p` is a new acknowledgement, or repeats the last one after the long-poll time.
pub open spec fn ack_advances(o: RecvBufferView, p: SequenceNumber, now: u64) -> bool {
    seq_before(o.last_ack.0 as int, p.0 as int) || (p == o.last_ack && now.saturating_sub(o.last_ack_time) >= o.congestion.rtt
        + 4 * o.congestion.rtt_var)
}

/// An ACK for `p` goes out at `now`: it is due, not yet confirmed by an ACK²,
/// advances (or repeats after the long poll), and lies after the last ACK².
pub open spec fn ack_answer(o: RecvBufferView, p: SequenceNumber, now: u64) -> bool {
    ack_due(o, now) && p != o.last_ack_square && ack_advances(o, p, now) && seq_before(o.last_ack_square.0 as int, p.0 as int)
}

/// The fragments `d` hold sequence number `s`.
pub open spec fn has_seq(d: Seq<DataPacket>, s: SequenceNumber) -> bool {
    exists|j: int| 0 <= j < d.len() && d[j].seq_no == s
}

/// A successful `pop` from `o` to `n` delivers the complete message `m`, which is
/// the next expected one, and moves on to the number after it.
pub open spec fn delivers(o: RecvBufferView, n: RecvBufferView, m: MessageNumber) -> bool {
    let k = block_index(o.blocks, o.last_msg);
    &&& m == o.last_msg
    &&& k >= 0
    &&& o.blocks[k].msg_no == m
    &&& o.blocks[k].state == BlockState::Complete
    &&& n.blocks == o.blocks.remove(k)
    &&& n.last_msg.0 == (o.last_msg.0 + 1) % 0x2000
}

/// In-order delivery: two successive successful pops deliver consecutive message
/// numbers, one message per call.
pub proof fn lemma_in_order(b0: RecvBufferView, b1: RecvBufferView, b2: RecvBufferView, m1: MessageNumber, m2: MessageNumber)
    requires
        delivers(b0, b1, m1),
        delivers(b1, b2, m2),
    ensures
        m2.0 == (m1.0 + 1) % 0x2000,
        b2.blocks.len() + 2 == b0.blocks.len(),
{
}

impl RecvBuffer {
    pub closed spec fn wf(&self) -> bool {
        &&& self.last_msg.wf()
        &&& self.last_seq.wf()
        &&& self.last_ack.wf()
        &&& self.last_ack_square.wf()
        &&& self.congestion.wf()
        &&& forall|i: int| 0 <= i < self.blocks@.len() ==> block_wf(#[trigger] self.blocks@[i]@)
        &&& forall|i: int, j: int|
            0 <= i < self.blocks@.len() && 0 <= j < self.blocks@.len() && i != j ==> self.blocks@[i].msg_no != self.blocks@[j].msg_no
    }

    pub fn new(self_isn: SequenceNumber, now: u64) -> (r: Self)
        requires
            self_isn.wf(),
        ensures
            r.wf(),
            r@.last_msg == MessageNumber(0),
            r@.last_seq == self_isn,
            r@.last_ack == self_isn,
            r@.last_ack_square == self_isn,
            r@.blocks.len() == 0,
            r@.next_ack_time == now.saturating_add(SYN_INTERVAL),
    {
        let r = RecvBuffer {
            last_msg: MessageNumber(0),
            last_seq: self_isn,
            last_ack: self_isn,
            last_ack_square: self_isn,
            last_ack_time: now,
            last_ack_square_time: now,
            next_ack_time: now.saturating_add(SYN_INTERVAL),
            ack_window: Window::new(2_000_000),
            congestion: CongestionController::new(now),
            blocks: Vec::new(),
        };
        proof {
            assert(r@.blocks =~= Seq::empty());
        }
        r
    }

    fn find_block(&self, m: MessageNumber) -> (r: Option<usize>)
        requires
            self.wf(),
        ensures
            match r {
                Some(k) => (k as int) < self@.blocks.len() && self@.blocks[k as int].msg_no == m && block_index(self@.blocks, m) == k as int,
                None => block_index(self@.blocks, m) == -1,
            },
    {
        let mut i: usize = 0;
        while i < self.blocks.len()
            invariant
                0 <= i <= self@.blocks.len(),
                self.wf(),
                forall|j: int| 0 <= j < i ==> self@.blocks[j].msg_no != m,
            decreases self@.blocks.len() - i,
        {
            if self.blocks[i].msg_no == m {
                proof {
                    assert(self@.blocks[i as int].msg_no == m);
                    let c = block_index(self@.blocks, m);
                    assert(self.blocks@[c].msg_no == self.blocks@[i as int].msg_no);
                }
                return Some(i);
            }
            i = i + 1;
        }
        None
    }

    /// Files a data packet under its message. Returns the stretch of sequence numbers
    /// skipped between the last one seen and this packet, if any.
    pub fn add(&mut self, packet: DataPacket) -> (r: Option<SequenceRange>)
        requires
            old(self).wf(),
            packet.wf(),
        ensures
            final(self).wf(),
            ({
                let start = SequenceNumber(((old(self)@.last_seq.0 + 1) % 0x8000) as u16);
                if seq_before(start.0 as int, packet.seq_no.0 as int) {
                    r == Some(SequenceRange { start, stop: SequenceNumber(((packet.seq_no.0 + 0xffff) % 0x8000) as u16) })
                } else {
                    r.is_none()
                }
            }),
            seq_before(old(self)@.last_seq.0 as int, packet.seq_no.0 as int) ==> final(self)@.last_seq == packet.seq_no,
            !seq_before(old(self)@.last_seq.0 as int, packet.seq_no.0 as int) ==> final(self)@.last_seq == old(self)@.last_seq,
            final(self)@.last_msg == old(self)@.last_msg,
            final(self)@.last_ack == old(self)@.last_ack,
            final(self)@.last_ack_square == old(self)@.last_ack_square,
            block_index(old(self)@.blocks, packet.msg_no) == -1 ==> final(self)@.blocks.len() == old(self)@.blocks.len() + 1
                && final(self)@.blocks.last().data == seq![packet],
            block_index(old(self)@.blocks, packet.msg_no) >= 0 ==> final(self)@.blocks.len() == old(self)@.blocks.len() && ({
                let k = block_index(old(self)@.blocks, packet.msg_no);
                final(self)@.blocks[k].msg_no == packet.msg_no && (has_seq(old(self)@.blocks[k].data, packet.seq_no)
                    ==> final(self)@.blocks[k].data == old(self)@.blocks[k].data) && (!has_seq(old(self)@.blocks[k].data, packet.seq_no)
                    ==> final(self)@.blocks[k].data == old(self)@.blocks[k].data.push(packet))
            }),
    {
        let mut start = self.last_seq;
        start.inc();
        let skip = if start.before(&packet.seq_no) {
            let mut stop = packet.seq_no;
            stop.dec();
            Some(SequenceRange { start, stop })
        } else {
            None
        };
        if self.last_seq.before(&packet.seq_no) {
            self.last_seq = packet.seq_no;
        }
        let ghost mid = self@;
        match self.find_block(packet.msg_no) {
            Some(k) => {
                let ghost bs = self.blocks@;
                let mut blk = self.blocks.remove(k);
                proof {
                    assert(blk@ == bs[k as int]@);
                    assert(block_wf(blk@));
                }
                blk.insert(packet);
                self.blocks.insert(k, blk);
                proof {
                    assert forall|i: int| 0 <= i < self.blocks@.len() implies block_wf(#[trigger] self.blocks@[i]@) by {
                        if i != k as int {
                            assert(self.blocks@[i] == bs[i]);
                        }
                    }
                    assert forall|i: int, j: int|
                        0 <= i < self.blocks@.len() && 0 <= j < self.blocks@.len() && i != j implies self.blocks@[i].msg_no != self.blocks@[j].msg_no by {
                        assert(self.blocks@[k as int].msg_no == bs[k as int].msg_no);
                        if i != k as int { assert(self.blocks@[i] == bs[i]); }
                        if j != k as int { assert(self.blocks@[j] == bs[j]); }
                    }
                }
            },
            None => {
                let ghost bs = self.blocks@;
                proof {
                    assert forall|j: int| 0 <= j < bs.len() implies bs[j].msg_no != packet.msg_no by {
                        if bs[j].msg_no == packet.msg_no {
                            assert(self@.blocks[j].msg_no == packet.msg_no);
                        }
                    }
                }
                let blk = RecvBlock::single(packet);
                self.blocks.push(blk);
                proof {
                    assert forall|i: int| 0 <= i < self.blocks@.len() implies block_wf(#[trigger] self.blocks@[i]@) by {
                        if i < bs.len() {
                            assert(self.blocks@[i] == bs[i]);
                        }
                    }
                    assert forall|i: int, j: int|
                        0 <= i < self.blocks@.len() && 0 <= j < self.blocks@.len() && i != j implies self.blocks@[i].msg_no != self.blocks@[j].msg_no by {
                        if i < bs.len() { assert(self.blocks@[i] == bs[i]); }
                        if j < bs.len() { assert(self.blocks@[j] == bs[j]); }
                        if i == bs.len() { assert(bs[j].msg_no != packet.msg_no); }
                        if j == bs.len() { assert(bs[i].msg_no != packet.msg_no); }
                    }
                }
            },
        }
        skip
    }

    /// Delivers the next expected message (the one numbered `last_msg`) once it is
    /// complete, and moves on to the following number.
    pub fn pop(&mut self) -> (r: Option<Vec<u8>>)
        requires
            old(self).wf(),
        ensures
            final(self).wf(),
            ({
                let k = block_index(old(self)@.blocks, old(self)@.last_msg);
                if k >= 0 && old(self)@.blocks[k].state == BlockState::Complete {
                    r.is_some() && delivers(old(self)@, final(self)@, old(self)@.last_msg)
                        && r.unwrap()@ == decompressed(assembled(old(self)@.blocks[k].data))
                } else {
                    r.is_none() && final(self)@ == old(self)@
                }
            }),
            final(self)@.last_seq == old(self)@.last_seq,
            final(self)@.last_ack == old(self)@.last_ack,
    {
        match self.find_block(self.last_msg) {
            Some(k) => {
                if self.blocks[k].state == BlockState::Complete {
                    proof {
                        assert(block_wf(self.blocks@[k as int]@));
                    }
                    proof {
                        assert(self@.blocks[k as int].msg_no == self.last_msg);
                    }
                    let bytes = self.blocks[k].to_bytes();
                    let ghost bs = self.blocks@;
                    self.blocks.remove(k);
                    self.last_msg.inc();
                    proof {
                        assert(self@.blocks =~= bs.map_values(|b: RecvBlock| b@).remove(k as int));
                        assert forall|i: int| 0 <= i < self.blocks@.len() implies block_wf(#[trigger] self.blocks@[i]@) by {
                            if i < k { assert(self.blocks@[i] == bs[i]); } else { assert(self.blocks@[i] == bs[i + 1]); }
                        }
                        assert forall|i: int, j: int|
                            0 <= i < self.blocks@.len() && 0 <= j < self.blocks@.len() && i != j implies self.blocks@[i].msg_no != self.blocks@[j].msg_no by {
                            let ii = if i < k { i } else { i + 1 };
                            let jj = if j < k { j } else { j + 1 };
                            assert(self.blocks@[i] == bs[ii]);
                            assert(self.blocks@[j] == bs[jj]);
                        }
                    }
                    Some(bytes)
                } else {
                    None
                }
            },
            None => None,
        }
    }

    /// The peer gave up message `msg_no` (sequence numbers `range`): forgets its
    /// block, skips it if it was the next expected, and moves `last_seq` to the end of
    /// the range when the range spans it.
    pub fn drop_msg(&mut self, msg_no: MessageNumber, range: SequenceRange)
        requires
            old(self).wf(),
            range.wf(),
        ensures
            final(self).wf(),
            block_index(old(self)@.blocks, msg_no) >= 0 ==> final(self)@.blocks == old(self)@.blocks.remove(block_index(old(self)@.blocks, msg_no)),
            block_index(old(self)@.blocks, msg_no) < 0 ==> final(self)@.blocks == old(self)@.blocks,
            old(self)@.last_msg == msg_no ==> final(self)@.last_msg.0 == (msg_no.0 + 1) % 0x2000,
            old(self)@.last_msg != msg_no ==> final(self)@.last_msg == old(self)@.last_msg,
            range.has(old(self)@.last_seq.0 as int) && old(self)@.last_seq != range.stop ==> final(self)@.last_seq == range.stop,
            !(range.has(old(self)@.last_seq.0 as int) && old(self)@.last_seq != range.stop) ==> final(self)@.last_seq == old(self)@.last_seq,
            final(self)@.last_ack == old(self)@.last_ack,
            final(self)@.last_ack_square == old(self)@.last_ack_square,
            forall|i: int| 0 <= i < final(self)@.blocks.len() ==> (#[trigger] final(self)@.blocks[i]).msg_no != msg_no,
    {
        match self.find_block(msg_no) {
            Some(k) => {
                let ghost bs = self.blocks@;
                self.blocks.remove(k);
                proof {
                    assert(self@.blocks =~= bs.map_values(|b: RecvBlock| b@).remove(k as int));
                    assert forall|i: int| 0 <= i < self.blocks@.len() implies block_wf(#[trigger] self.blocks@[i]@) by {
                        if i < k { assert(self.blocks@[i] == bs[i]); } else { assert(self.blocks@[i] == bs[i + 1]); }
                    }
                    assert forall|i: int, j: int|
                        0 <= i < self.blocks@.len() && 0 <= j < self.blocks@.len() && i != j implies self.blocks@[i].msg_no != self.blocks@[j].msg_no by {
                        let ii = if i < k { i } else { i + 1 };
                        let jj = if j < k { j } else { j + 1 };
                        assert(self.blocks@[i] == bs[ii]);
                        assert(self.blocks@[j] == bs[jj]);
                    }
                }
            },
            None => {},
        }
        if self.last_msg == msg_no {
            self.last_msg.inc();
        }
        if range.contains(self.last_seq) && self.last_seq != range.stop {
            self.last_seq = range.stop;
        }
    }

    /// Number of messages being assembled.
    pub fn size(&self) -> (r: usize)
        ensures
            r == self@.blocks.len(),
    {
        self.blocks.len()
    }

    pub fn last_seq(&self) -> (r: SequenceNumber)
        ensures
            r == self@.last_seq,
    {
        self.last_seq
    }

    /// Records that an ACK for `ack_no` went out at `now`.
    pub fn sent_ack(&mut self, ack_no: SequenceNumber, now: u64)
        requires
            old(self).wf(),
            ack_no.wf(),
        ensures
            final(self).wf(),
            seq_before(old(self)@.last_ack.0 as int, ack_no.0 as int) ==> final(self)@.last_ack == ack_no,
            !seq_before(old(self)@.last_ack.0 as int, ack_no.0 as int) ==> final(self)@.last_ack == old(self)@.last_ack,
            !seq_before(final(self)@.last_ack.0 as int, old(self)@.last_ack.0 as int),
            final(self)@.last_ack_time == now,
            final(self)@.blocks == old(self)@.blocks,
            final(self)@.last_seq == old(self)@.last_seq,
            final(self)@.last_msg == old(self)@.last_msg,
            final(self)@.last_ack_square == old(self)@.last_ack_square,
    {
        if self.last_ack.before(&ack_no) {
            self.last_ack = ack_no;
        }
        self.last_ack_time = now;
        self.ack_window.store(ack_no, ack_no, now);
    }

    /// The cumulative acknowledgement boundary: one past the last sequence number seen.
    pub fn next_ack(&self) -> (r: SequenceNumber)
        ensures
            r.0 == (self@.last_seq.0 + 1) % 0x8000,
    {
        let mut n = self.last_seq;
        n.inc();
        n
    }

    /// The peer confirmed the ACK for `ack_no`: records it (never moving back) and
    /// feeds the measured round trip to the congestion controller.
    pub fn ack_square(&mut self, ack_no: SequenceNumber, now: u64)
        requires
            old(self).wf(),
            ack_no.wf(),
        ensures
            final(self).wf(),
            seq_before(old(self)@.last_ack_square.0 as int, ack_no.0 as int) ==> final(self)@.last_ack_square == ack_no,
            !seq_before(old(self)@.last_ack_square.0 as int, ack_no.0 as int) ==> final(self)@.last_ack_square == old(self)@.last_ack_square,
            !seq_before(final(self)@.last_ack_square.0 as int, old(self)@.last_ack_square.0 as int),
            final(self)@.last_ack == old(self)@.last_ack,
            final(self)@.blocks == old(self)@.blocks,
            final(self)@.last_seq == old(self)@.last_seq,
            final(self)@.last_msg == old(self)@.last_msg,
    {
        self.last_ack_square_time = now;
        if self.last_ack_square.before(&ack_no) {
            self.last_ack_square = ack_no;
        }
        let mut discard = SequenceNumber(0);
        let rtt = self.ack_window.acknowledge(ack_no, &mut discard, now);
        let ms = rtt / 1000;
        let sample: u16 = if ms > 0xffff { 0xffff } else { ms as u16 };
        self.congestion.update_rtt(sample);
    }

    /// Decides whether to acknowledge `proposed_ack` at `now`; returns the
    /// acknowledgement and the last sequence number seen when it is due.
    pub fn should_ack(&mut self, proposed_ack: SequenceNumber, now: u64) -> (r: Option<(SequenceNumber, SequenceNumber)>)
        requires
            old(self).wf(),
            proposed_ack.wf(),
        ensures
            final(self).wf(),
            r.is_some() == ack_answer(old(self)@, proposed_ack, now),
            r.is_some() ==> r == Some((proposed_ack, old(self)@.last_seq)) && final(self)@.last_ack == proposed_ack
                && final(self)@.next_ack_time == now.saturating_add(ack_delay(old(self)@.congestion)),
            r.is_none() ==> final(self)@.next_ack_time == old(self)@.next_ack_time,
            final(self)@.last_ack == if ack_due(old(self)@, now) && proposed_ack != old(self)@.last_ack_square
                && seq_before(old(self)@.last_ack.0 as int, proposed_ack.0 as int) {
                proposed_ack
            } else {
                old(self)@.last_ack
            },
            !seq_before(final(self)@.last_ack.0 as int, old(self)@.last_ack.0 as int),
            final(self)@.blocks == old(self)@.blocks,
            final(self)@.last_seq == old(self)@.last_seq,
            final(self)@.last_msg == old(self)@.last_msg,
            final(self)@.last_ack_square == old(self)@.last_ack_square,
    {
        let due = if now >= self.next_ack_time { true } else { self.congestion.should_ack() };
        if !due {
            return None;
        }
        if proposed_ack == self.last_ack_square {
            return None;
        }
        if self.last_ack.before(&proposed_ack) {
            self.last_ack = proposed_ack;
        } else if proposed_ack == self.last_ack {
            if now.saturating_sub(self.last_ack_time) < self.congestion.long_poll() {
                return None;
            }
        } else {
            return None;
        }
        if self.last_ack_square.before(&self.last_ack) {
            let d = self.congestion.next_ack();
            self.next_ack_time = now.saturating_add(d);
            return Some((proposed_ack, self.last_seq));
        }
        None
    }

    /// Feeds a loss report to the congestion controller, keyed by the lowest start.
    pub fn loss(&mut self, loss_ranges: &Vec<SequenceRange>)
        requires
            old(self).wf(),
        ensures
            final(self).wf(),
            final(self)@.blocks == old(self)@.blocks,
            final(self)@.last_seq == old(self)@.last_seq,
            final(self)@.last_ack == old(self)@.last_ack,
    {
        let mut start: u16 = 0x7fff;
        let mut i: usize = 0;
        while i < loss_ranges.len()
            invariant
                0 <= i <= loss_ranges@.len(),
                start < 0x8000,
            decreases loss_ranges@.len() - i,
        {
            let r = loss_ranges[i];
            if r.start.0 < start {
                start = r.start.0;
            }
            i = i + 1;
        }
        self.congestion.on_loss(SequenceNumber(start));
    }

    /// The congestion controller's send period.
    pub fn delay(&self) -> (r: u64)
        ensures
            r == self@.congestion.pkt_send_period,
    {
        self.congestion.next_time()
    }

    pub fn on_pkt(&mut self)
        requires
            old(self).wf(),
        ensures
            final(self).wf(),
            final(self)@ == (RecvBufferView {
                congestion: CongestionView { pkt_count: old(self)@.congestion.pkt_count.saturating_add(1), ..old(self)@.congestion },
                ..old(self)@
            }),
    {
        self.congestion.inc_pkt_cnt();
    }

    pub fn rtt(&self) -> (r: (u64, u64))
        ensures
            r == (self@.congestion.rtt, self@.congestion.rtt_var),
    {
        self.congestion.rtt()
    }

    pub fn update_rtt(&mut self, rtt: u16)
        requires
            old(self).wf(),
        ensures
            final(self).wf(),
            final(self)@.blocks == old(self)@.blocks,
            final(self)@.congestion.rtt == (7 * old(self)@.congestion.rtt + rtt as int * 1000) / 8,
    {
        self.congestion.update_rtt(rtt);
    }

    pub fn update_recv_rate(&mut self, rate: u16)
        requires
            old(self).wf(),
        ensures
            final(self).wf(),
            final(self)@.blocks == old(self)@.blocks,
            final(self)@.congestion.recv_rate == (7 * old(self)@.congestion.recv_rate + rate + 4) / 8,
    {
        self.congestion.update_recv_rate(rate);
    }

    pub fn update_bandwidth(&mut self, bw: u16)
        requires
            old(self).wf(),
        ensures
            final(self).wf(),
            final(self)@.blocks == old(self)@.blocks,
            final(self)@.congestion.bandwidth == (7 * old(self)@.congestion.bandwidth + bw + 4) / 8,
    {
        self.congestion.update_bandwidth(bw);
    }

    /// Passes an acknowledgement to the congestion controller.
    pub fn on_ack(&mut self, ack_no: SequenceNumber, now: u64)
        requires
            old(self).wf(),
            ack_no.wf(),
        ensures
            final(self).wf(),
            final(self)@.blocks == old(self)@.blocks,
            final(self)@.last_ack == old(self)@.last_ack,
    {
        self.congestion.on_ack(ack_no, now);
    }
}

} // verus!
