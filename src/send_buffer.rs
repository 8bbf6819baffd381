use vstd::prelude::*;
use crate::packet::data::{length_prefix, DataPacket, DataPacketType, DataPacketView};
use crate::serial::tail;
use crate::utils::{seq_before, seq_off, MessageNumber, SequenceNumber, SequenceRange};

verus! {

/// Reference interval for acknowledgement timing: 10 ms, in microseconds.
pub const SYN_INTERVAL: u64 = 10_000;

/// Whether a stored fragment has been handed out for sending.
#[derive(Copy, Clone, Debug, PartialEq, Eq, Structural)]
pub enum BlockState {
    Fresh,
    Read,
}

/// A stored fragment with its deadline (microseconds).
#[derive(Clone, Debug)]
pub struct SendBlock {
    packet: DataPacket,
    timeout: u64,
    state: BlockState,
}

pub struct SendBlockView {
    pub packet: DataPacketView,
    pub timeout: u64,
    pub state: BlockState,
}

impl View for SendBlock {
    type V = SendBlockView;

    closed spec fn view(&self) -> SendBlockView {
        SendBlockView { packet: self.packet@, timeout: self.timeout, state: self.state }
    }
}

/// Outgoing fragments of one connection, in sending order, with the
/// acknowledgement state of the peer.
#[derive(Debug)]
pub struct SendBuffer {
    last_msg: MessageNumber,
    last_seq: SequenceNumber,
    last_ack: SequenceNumber,
    last_ack_square: SequenceNumber,
    last_ack_time: u64,
    last_ack_square_time: u64,
    blocks: Vec<SendBlock>,
    drops: Vec<(MessageNumber, SequenceNumber)>,
}

pub struct SendBufferView {
    pub last_msg: MessageNumber,
    pub last_seq: SequenceNumber,
    pub last_ack: SequenceNumber,
    pub last_ack_square: SequenceNumber,
    pub last_ack_time: u64,
    pub blocks: Seq<SendBlockView>,
    pub drops: Seq<(MessageNumber, SequenceNumber)>,
}

impl View for SendBuffer {
    type V = SendBufferView;

    closed spec fn view(&self) -> SendBufferView {
        SendBufferView {
            last_msg: self.last_msg,
            last_seq: self.last_seq,
            last_ack: self.last_ack,
            last_ack_square: self.last_ack_square,
            last_ack_time: self.last_ack_time,
            blocks: self.blocks@.map_values(|b: SendBlock| b@),
            drops: self.drops@,
        }
    }
}

/// `a` is `b` or comes before it on the circle.
pub open spec fn seq_le(a: SequenceNumber, b: SequenceNumber) -> bool {
    a == b || seq_before(a.0 as int, b.0 as int)
}

/// Number of fragments for `len` bytes at `mss` bytes each.
pub open spec fn fragment_count(len: int, mss: int) -> int {
    (len + mss - 1) / mss
}

/// The `i`-th fragment of a message of `count` fragments.
pub open spec fn fragment(
    data: Seq<u8>,
    mss: int,
    i: int,
    count: int,
    first_seq: int,
    msg_no: MessageNumber,
    order: bool,
    partner_id: u16,
    stamp: u16,
) -> DataPacketView {
    DataPacketView {
        seq_no: SequenceNumber(((first_seq + i) % 0x8000) as u16),
        msg_no,
        element: if count == 1 {
            DataPacketType::Solo
        } else if i == 0 {
            DataPacketType::First
        } else if i == count - 1 {
            DataPacketType::Last
        } else {
            DataPacketType::Middle
        },
        order,
        stamp,
        dst_socket_id: partner_id,
        data: data.subrange(i * mss, if (i + 1) * mss < data.len() { (i + 1) * mss } else { data.len() as int }),
    }
}

/// The block of a fragment that is about to be sent.
pub open spec fn fresh_block(packet: DataPacketView, timeout: u64) -> SendBlockView {
    SendBlockView { packet, timeout, state: BlockState::Fresh }
}

/// How far the block's sequence number lies behind `last` on the circle.
pub open spec fn behind(b: SendBlockView, last: SequenceNumber) -> int {
    seq_off(b.packet.seq_no.0 as int, last.0 as int)
}

/// The blocks are stored in increasing sequence order, ending at or before `last`:
/// an earlier block lies further behind `last`.
#[verifier::opaque]
pub open spec fn sn_ordered(bs: Seq<SendBlockView>, last: SequenceNumber) -> bool {
    forall|i: int, j: int| 0 <= i < j < bs.len() ==> behind(#[trigger] bs[i], last) > behind(#[trigger] bs[j], last)
}

/// `n` more fragments fit without the stored run wrapping the sequence circle.
pub open spec fn window_fits(v: SendBufferView, n: int) -> bool {
    n < 0x8000 && (v.blocks.len() == 0 || behind(v.blocks[0], v.last_seq) + n < 0x8000)
}

/// Keeping some of the blocks keeps them in order.
pub proof fn lemma_filter_ordered(bs: Seq<SendBlockView>, pred: spec_fn(SendBlockView) -> bool, last: SequenceNumber)
    requires
        sn_ordered(bs, last),
    ensures
        sn_ordered(bs.filter(pred), last),
        forall|i: int| 0 <= i < bs.filter(pred).len() ==> bs.contains(#[trigger] bs.filter(pred)[i]),
    decreases bs.len(),
{
    reveal(Seq::filter);
    reveal(sn_ordered);
    if bs.len() > 0 {
        let d = bs.drop_last();
        assert(sn_ordered(d, last)) by {
            assert forall|i: int, j: int| 0 <= i < j < d.len() implies behind(#[trigger] d[i], last) > behind(#[trigger] d[j], last) by {
                assert(d[i] == bs[i] && d[j] == bs[j]);
            }
        }
        lemma_filter_ordered(d, pred, last);
        let f = d.filter(pred);
        assert forall|i: int| 0 <= i < bs.filter(pred).len() implies bs.contains(#[trigger] bs.filter(pred)[i]) by {
            if i < f.len() {
                assert(d.contains(f[i]));
                let t = choose|t: int| 0 <= t < d.len() && d[t] == f[i];
                assert(bs[t] == f[i]);
            } else {
                assert(bs[bs.len() - 1] == bs.last());
            }
        }
        if pred(bs.last()) {
            let g = bs.filter(pred);
            assert(g == f.push(bs.last()));
            assert forall|i: int, j: int| 0 <= i < j < g.len() implies behind(#[trigger] g[i], last) > behind(#[trigger] g[j], last) by {
                if j < f.len() {
                    assert(g[i] == f[i] && g[j] == f[j]);
                } else {
                    assert(g[j] == bs.last());
                    assert(g[i] == f[i]);
                    assert(d.contains(f[i]));
                    let t = choose|t: int| 0 <= t < d.len() && d[t] == f[i];
                    assert(bs[t] == f[i]);
                    assert(behind(bs[t], last) > behind(bs[bs.len() - 1], last));
                }
            }
        }
    }
}

/// Appending the block numbered just after `last` keeps the order, with `last`
/// moved onto it.
pub proof fn lemma_push_ordered(bs: Seq<SendBlockView>, last: SequenceNumber, b: SendBlockView)
    requires
        sn_ordered(bs, last),
        last.wf(),
        forall|i: int| 0 <= i < bs.len() ==> (#[trigger] bs[i]).packet.seq_no.wf(),
        bs.len() == 0 || behind(bs[0], last) + 1 < 0x8000,
        b.packet.seq_no.0 == (last.0 + 1) % 0x8000,
    ensures
        sn_ordered(bs.push(b), SequenceNumber(((last.0 + 1) % 0x8000) as u16)),
        bs.len() > 0 ==> behind(bs.push(b)[0], SequenceNumber(((last.0 + 1) % 0x8000) as u16)) == behind(bs[0], last) + 1,
        behind(b, SequenceNumber(((last.0 + 1) % 0x8000) as u16)) == 0,
{
    reveal(sn_ordered);
    let l2 = SequenceNumber(((last.0 + 1) % 0x8000) as u16);
    let g = bs.push(b);
    assert forall|t: int| 0 <= t < bs.len() implies behind(#[trigger] g[t], l2) == behind(bs[t], last) + 1 by {
        assert(g[t] == bs[t]);
        if t > 0 {
            assert(behind(bs[0], last) > behind(bs[t], last));
        }
        assert(bs[t].packet.seq_no.wf());
    }
    assert forall|i: int, j: int| 0 <= i < j < g.len() implies behind(#[trigger] g[i], l2) > behind(#[trigger] g[j], l2) by {
        if j < bs.len() {
            assert(behind(g[i], l2) == behind(bs[i], last) + 1);
            assert(behind(g[j], l2) == behind(bs[j], last) + 1);
        } else {
            assert(g[j] == b);
            assert(behind(g[i], l2) == behind(bs[i], last) + 1);
        }
    }
}

/// Block `k` has the lowest number (lies furthest behind `last`) among the blocks
/// whose numbers lie in `range`.
#[verifier::opaque]
pub open spec fn lowest_in_range(bs: Seq<SendBlockView>, last: SequenceNumber, range: SequenceRange, k: int) -> bool {
    forall|j: int| 0 <= j < bs.len() && range.has((#[trigger] bs[j]).packet.seq_no.0 as int) ==> behind(bs[j], last) <= behind(bs[k], last)
}

/// The first stored block whose number lies in `range` is the lowest such.
proof fn lemma_first_in_range_lowest(bs: Seq<SendBlockView>, last: SequenceNumber, range: SequenceRange, i: int)
    requires
        sn_ordered(bs, last),
        0 <= i < bs.len(),
        forall|j: int| 0 <= j < i ==> !range.has(bs[j].packet.seq_no.0 as int),
    ensures
        lowest_in_range(bs, last, range, i),
{
    reveal(sn_ordered);
    reveal(lowest_in_range);
    assert forall|j: int| 0 <= j < bs.len() && range.has((#[trigger] bs[j]).packet.seq_no.0 as int) implies behind(bs[j], last) <= behind(bs[i], last) by {
        if j > i {
            assert(behind(bs[i], last) > behind(bs[j], last));
        }
    }
}

/// The first fresh block is the lowest fresh one.
proof fn lemma_first_fresh_lowest(bs: Seq<SendBlockView>, last: SequenceNumber, i: int)
    requires
        sn_ordered(bs, last),
        0 <= i < bs.len(),
        forall|j: int| 0 <= j < i ==> (#[trigger] bs[j]).state != BlockState::Fresh,
    ensures
        forall|j: int| 0 <= j < bs.len() && (#[trigger] bs[j]).state == BlockState::Fresh ==> behind(bs[j], last) <= behind(bs[i], last),
{
    reveal(sn_ordered);
    assert forall|j: int| 0 <= j < bs.len() && (#[trigger] bs[j]).state == BlockState::Fresh implies behind(bs[j], last) <= behind(bs[i], last) by {
        if j > i {
            assert(behind(bs[i], last) > behind(bs[j], last));
        }
    }
}

/// Changing a block's state keeps the order.
pub proof fn lemma_restate_ordered(bs: Seq<SendBlockView>, k: int, st: BlockState, last: SequenceNumber)
    requires
        sn_ordered(bs, last),
        0 <= k < bs.len(),
    ensures
        sn_ordered(bs.update(k, SendBlockView { state: st, ..bs[k] }), last),
{
    reveal(sn_ordered);
    let u = bs.update(k, SendBlockView { state: st, ..bs[k] });
    assert forall|i: int, j: int| 0 <= i < j < u.len() implies behind(#[trigger] u[i], last) > behind(#[trigger] u[j], last) by {
        assert(behind(u[i], last) == behind(bs[i], last));
        assert(behind(u[j], last) == behind(bs[j], last));
    }
}

/// Blocks whose deadline has passed at `now`, as (message, sequence) pairs.
pub open spec fn expired_pairs(blocks: Seq<SendBlockView>, now: u64) -> Seq<(MessageNumber, SequenceNumber)>
    decreases blocks.len(),
{
    if blocks.len() == 0 {
        Seq::empty()
    } else {
        let b = blocks.last();
        expired_pairs(blocks.drop_last(), now) + if b.timeout <= now {
            seq![(b.packet.msg_no, b.packet.seq_no)]
        } else {
            Seq::empty()
        }
    }
}

impl SendBuffer {
    pub open spec fn wf(&self) -> bool {
        &&& self@.last_seq.wf()
        &&& self@.last_msg.wf()
        &&& self@.last_ack.wf()
        &&& self@.last_ack_square.wf()
        &&& forall|i: int| 0 <= i < self@.blocks.len() ==> (#[trigger] self@.blocks[i]).packet.seq_no.wf()
        &&& sn_ordered(self@.blocks, self@.last_seq)
    }

    /// An empty buffer whose numbering starts after `self_isn`.
    pub fn new(self_isn: SequenceNumber, now: u64) -> (r: Self)
        requires
            self_isn.wf(),
        ensures
            r.wf(),
            r@.last_seq == self_isn,
            r@.last_ack == self_isn,
            r@.last_ack_square == self_isn,
            r@.last_msg == MessageNumber(0),
            r@.last_ack_time == now,
            r@.blocks.len() == 0,
            r@.drops.len() == 0,
    {
        let r = SendBuffer {
            last_msg: MessageNumber(0),
            last_seq: self_isn,
            last_ack: self_isn,
            last_ack_square: self_isn,
            last_ack_time: now,
            last_ack_square_time: now,
            blocks: Vec::new(),
            drops: Vec::new(),
        };
        proof {
            assert(r@.blocks =~= Seq::empty());
            reveal(sn_ordered);
        }
        r
    }

    /// Splits `data` into fragments of at most `mss` bytes, numbers them after the
    /// last sequence number under one new message number, and stores them as fresh
    /// blocks that expire at `now + ttl`. Returns the number of fragments.
    pub fn add_encoded(
        &mut self,
        data: &[u8],
        ttl: u64,
        order: bool,
        partner_id: u16,
        mss: u16,
        now: u64,
        stamp: u16,
    ) -> (r: usize)
        requires
            old(self).wf(),
            mss > 0,
            window_fits(old(self)@, fragment_count(data@.len() as int, mss as int)),
        ensures
            final(self).wf(),
            r == fragment_count(data@.len() as int, mss as int),
            final(self)@.blocks == old(self)@.blocks + Seq::new(
                r as nat,
                |i: int|
                    fresh_block(
                        fragment(
                            data@,
                            mss as int,
                            i,
                            r as int,
                            old(self)@.last_seq.0 + 1,
                            old(self)@.last_msg,
                            order,
                            partner_id,
                            stamp,
                        ),
                        now.saturating_add(ttl),
                    ),
            ),
            final(self)@.last_seq.0 == (old(self)@.last_seq.0 + r) % 0x8000,
            r > 0 ==> final(self)@.last_msg.0 == (old(self)@.last_msg.0 + 1) % 0x2000,
            r == 0 ==> final(self)@.last_msg == old(self)@.last_msg,
            final(self)@.last_ack == old(self)@.last_ack,
            final(self)@.last_ack_square == old(self)@.last_ack_square,
            final(self)@.last_ack_time == old(self)@.last_ack_time,
            final(self)@.drops == old(self)@.drops,
    {
        let len = data.len();
        let m = mss as usize;
        let count: usize = if len == 0 { 0 } else { (len - 1) / m + 1 };
        proof {
            let li = len as int;
            let mi = m as int;
            let ci = count as int;
            if len == 0 {
                assert(ci == fragment_count(li, mi)) by (nonlinear_arith)
                    requires mi > 0, ci == 0, li == 0;
            } else {
                assert(ci == fragment_count(li, mi)) by (nonlinear_arith)
                    requires mi > 0, li > 0, ci == (li - 1) / mi + 1;
            }
        }
        let deadline = now.saturating_add(ttl);
        let ghost first = self.last_seq.0 + 1;
        let ghost msg = self.last_msg;
        let ghost old_blocks = self@.blocks;
        let ghost old_seq = self.last_seq.0;
        let ghost spec_blocks = Seq::new(
            count as nat,
            |i: int|
                fresh_block(
                    fragment(data@, m as int, i, count as int, first, msg, order, partner_id, stamp),
                    deadline,
                ),
        );
        let mut i: usize = 0;
        let mut pos: usize = 0;
        while i < count
            invariant
                0 <= i <= count,
                count == fragment_count(len as int, m as int),
                m > 0,
                m == mss,
                len == data@.len(),
                i < count ==> pos == i * m,
                first == old_seq + 1,
                old_seq < 0x8000,
                msg == self.last_msg,
                self.last_msg.wf(),
                self.last_seq.0 == (old_seq + i) % 0x8000,
                self@.blocks == old_blocks + spec_blocks.take(i as int),
                self.last_ack == old(self).last_ack,
                self.last_ack_square == old(self).last_ack_square,
                self.last_ack_time == old(self).last_ack_time,
                self.drops@ == old(self).drops@,
                forall|k: int| 0 <= k < self@.blocks.len() ==> (#[trigger] self@.blocks[k]).packet.seq_no.wf(),
                sn_ordered(self@.blocks, self.last_seq),
                self.last_seq.wf(),
                count < 0x8000,
                self@.blocks.len() == 0 || behind(self@.blocks[0], self.last_seq) + (count - i) < 0x8000,
                spec_blocks == Seq::new(
                    count as nat,
                    |i: int|
                        fresh_block(
                            fragment(data@, m as int, i, count as int, first, msg, order, partner_id, stamp),
                            deadline,
                        ),
                ),
            decreases count - i,
        {
            proof {
                let (ii, ci, li, mi, pi) = (i as int, count as int, len as int, m as int, pos as int);
                assert(pi < li) by (nonlinear_arith)
                    requires ii < ci, ci == (li + mi - 1) / mi, pi == ii * mi, mi > 0;
                assert(pi + mi == (ii + 1) * mi) by (nonlinear_arith)
                    requires pi == ii * mi;
            }
            let end: usize = if len - pos > m { pos + m } else { len };
            let ghost old_last = self.last_seq;
            self.last_seq.inc();
            let element = if count == 1 {
                DataPacketType::Solo
            } else if i == 0 {
                DataPacketType::First
            } else if i == count - 1 {
                DataPacketType::Last
            } else {
                DataPacketType::Middle
            };
            let chunk = slice_copy(data, pos, end);
            let packet = DataPacket::new(self.last_seq, self.last_msg, element, order, stamp, partner_id, chunk);
            let block = SendBlock { packet, timeout: deadline, state: BlockState::Fresh };
            proof {
                assert((old_seq + i) % 0x8000 + 1 < 0x10000);
                assert(((old_seq + i) % 0x8000 + 1) % 0x8000 == (first + i) % 0x8000);
                let f = fragment(data@, m as int, i as int, count as int, first, msg, order, partner_id, stamp);
                assert(block@.packet.seq_no == f.seq_no);
                assert(block@.packet.element == f.element);
                assert(block@.packet.data =~= f.data);
                assert(block@.packet == f);
                assert(spec_blocks[i as int] == fresh_block(f, deadline));
                assert(block@ == fresh_block(f, deadline));
                assert(f.seq_no.wf());
            }
            let ghost before = self@.blocks;
            proof {
                lemma_push_ordered(before, old_last, block@);
            }
            self.blocks.push(block);
            proof {
                assert(self@.blocks =~= before.push(block@));
                assert(spec_blocks.take(i + 1) =~= spec_blocks.take(i as int).push(spec_blocks[i as int]));
                assert(self@.blocks =~= old_blocks + spec_blocks.take(i + 1));
            }
            i = i + 1;
            pos = end;
            proof {
                let (ii, ci, li, mi, pi) = (i as int, count as int, len as int, m as int, pos as int);
                if i < count {
                    assert(li - (ii - 1) * mi > mi) by (nonlinear_arith)
                        requires ii < ci, ci == (li + mi - 1) / mi, mi > 0, ii >= 1;
                    assert(pi == ii * mi) by (nonlinear_arith)
                        requires pi == (ii - 1) * mi + mi;
                }
            }
        }
        if count > 0 {
            self.last_msg.inc();
        }
        proof {
            assert(spec_blocks.take(count as int) =~= spec_blocks);
        }
        count
    }
}


/// The block still live at `now`.
pub open spec fn is_live(now: u64) -> spec_fn(SendBlockView) -> bool {
    |b: SendBlockView| now < b.timeout
}

/// The block is a sent fragment covered by the cumulative acknowledgement `ack_no`.
pub open spec fn is_acked(ack_no: SequenceNumber) -> spec_fn(SendBlockView) -> bool {
    |b: SendBlockView| seq_le(b.packet.seq_no, ack_no) && b.state == BlockState::Read
}

/// Index of the first fresh block, if any.
pub open spec fn first_fresh(blocks: Seq<SendBlockView>) -> Option<int> {
    if exists|k: int| 0 <= k < blocks.len() && blocks[k].state == BlockState::Fresh {
        let k = choose|k: int|
            0 <= k < blocks.len() && blocks[k].state == BlockState::Fresh && forall|j: int|
                0 <= j < k ==> blocks[j].state != BlockState::Fresh;
        Some(k)
    } else {
        None
    }
}

impl SendBuffer {
    /// Compresses `data` and stores it as one message of fragments of at most `mss`
    /// bytes (see `add_encoded`). Returns the number of fragments.
    pub fn add(
        &mut self,
        data: &[u8],
        ttl: u64,
        order: bool,
        partner_id: u16,
        mss: u16,
        now: u64,
        stamp: u16,
    ) -> (r: usize)
        requires
            old(self).wf(),
            mss > 0,
            data@.len() <= u32::MAX,
        ensures
            final(self).wf(),
            exists|c: Seq<u8>|
                c.len() >= 4 && length_prefix(c) == data@.len() && (window_fits(old(self)@, fragment_count(c.len() as int, mss as int)) ==> {
                    &&& r == fragment_count(c.len() as int, mss as int)
                    &&& r > 0
                    &&& final(self)@.blocks == old(self)@.blocks + Seq::new(
                        r as nat,
                        |i: int|
                            fresh_block(
                                fragment(c, mss as int, i, r as int, old(self)@.last_seq.0 + 1, old(self)@.last_msg, order, partner_id, stamp),
                                now.saturating_add(ttl),
                            ),
                    )
                    &&& final(self)@.last_seq.0 == (old(self)@.last_seq.0 + r) % 0x8000
                    &&& final(self)@.last_msg.0 == (old(self)@.last_msg.0 + 1) % 0x2000
                    &&& final(self)@.last_ack == old(self)@.last_ack
                    &&& final(self)@.drops == old(self)@.drops
                }) && (!window_fits(old(self)@, fragment_count(c.len() as int, mss as int)) ==> r == 0 && final(self)@ == old(self)@),
    {
        let compressed = DataPacket::compress(data);
        let len = compressed.len();
        let m = mss as usize;
        let count: usize = (len - 1) / m + 1;
        proof {
            let (li, mi, ci) = (len as int, m as int, count as int);
            assert(ci == fragment_count(li, mi)) by (nonlinear_arith)
                requires mi > 0, li >= 4, ci == (li - 1) / mi + 1;
            assert(ci > 0) by (nonlinear_arith)
                requires mi > 0, li >= 4, ci == (li - 1) / mi + 1;
        }
        if !self.fits(count) {
            return 0;
        }
        self.add_encoded(compressed.as_slice(), ttl, order, partner_id, mss, now, stamp)
    }

    /// Whether `n` more fragments fit without wrapping the sequence circle.
    fn fits(&self, n: usize) -> (r: bool)
        requires
            self.wf(),
        ensures
            r == window_fits(self@, n as int),
    {
        if n >= 0x8000 {
            return false;
        }
        if self.blocks.len() == 0 {
            return true;
        }
        proof {
            assert(self@.blocks[0].packet.seq_no.wf());
        }
        let b = crate::utils::seq_offset(self.blocks[0].packet.seq_no.0, self.last_seq.0);
        (b as usize) + n < 0x8000
    }
}

impl SendBlock {
    fn duplicate(&self) -> (r: DataPacket)
        ensures
            r@ == self@.packet,
    {
        let data = tail(self.packet.data.as_slice(), 0);
        proof {
            assert(data@ =~= self.packet.data@);
        }
        DataPacket::new(
            self.packet.seq_no,
            self.packet.msg_no,
            self.packet.element,
            self.packet.order,
            self.packet.stamp,
            self.packet.dst_socket_id,
            data,
        )
    }
}

impl SendBuffer {
    /// Moves every block whose deadline has passed at `now` into the drop list.
    fn manage_drops(&mut self, now: u64)
        requires
            old(self).wf(),
        ensures
            final(self).wf(),
            final(self)@.blocks == old(self)@.blocks.filter(is_live(now)),
            final(self)@.drops == old(self)@.drops + expired_pairs(old(self)@.blocks, now),
            final(self)@.last_seq == old(self)@.last_seq,
            final(self)@.last_msg == old(self)@.last_msg,
            final(self)@.last_ack == old(self)@.last_ack,
            final(self)@.last_ack_square == old(self)@.last_ack_square,
            final(self)@.last_ack_time == old(self)@.last_ack_time,
    {
        let mut keep: Vec<SendBlock> = Vec::new();
        let mut old_blocks: Vec<SendBlock> = Vec::new();
        std::mem::swap(&mut old_blocks, &mut self.blocks);
        let ghost bs = old_blocks@.map_values(|b: SendBlock| b@);
        let ghost d0 = self.drops@;
        let mut i: usize = 0;
        while i < old_blocks.len()
            invariant
                0 <= i <= old_blocks@.len(),
                bs == old_blocks@.map_values(|b: SendBlock| b@),
                forall|k: int| 0 <= k < bs.len() ==> (#[trigger] bs[k]).packet.seq_no.wf(),
                keep@.map_values(|b: SendBlock| b@) == bs.take(i as int).filter(is_live(now)),
                forall|k: int| 0 <= k < keep@.len() ==> (#[trigger] keep@[k])@.packet.seq_no.wf(),
                self.drops@ == d0 + expired_pairs(bs.take(i as int), now),
                self.last_seq == old(self).last_seq,
                self.last_msg == old(self).last_msg,
                self.last_ack == old(self).last_ack,
                self.last_ack_square == old(self).last_ack_square,
                self.last_ack_time == old(self).last_ack_time,
                d0 == old(self).drops@,
                bs == old(self)@.blocks,
            decreases old_blocks@.len() - i,
        {
            let b = old_blocks[i].clone_block();
            proof {
                reveal(Seq::filter);
                assert(bs.take(i + 1).drop_last() =~= bs.take(i as int));
                assert(bs.take(i + 1).last() == b@);
                assert(bs[i as int].packet.seq_no.wf());
            }
            if now < b.timeout {
                let ghost before = keep@;
                keep.push(b);
                proof {
                    assert(keep@.map_values(|b: SendBlock| b@) =~= before.map_values(|b: SendBlock| b@).push(b@));
                }
            } else {
                self.drops.push((b.packet.msg_no, b.packet.seq_no));
                proof {
                    assert(self.drops@ =~= d0 + expired_pairs(bs.take(i + 1), now));
                }
            }
            i = i + 1;
        }
        proof {
            assert(bs.take(bs.len() as int) =~= bs);
        }
        self.blocks = keep;
        proof {
            assert forall|k: int| 0 <= k < self@.blocks.len() implies (#[trigger] self@.blocks[k]).packet.seq_no.wf() by {
                assert(self@.blocks[k] == keep@[k]@);
            }
            lemma_filter_ordered(bs, is_live(now), old(self)@.last_seq);
        }
    }

    /// Hands out the first fresh fragment, after moving expired blocks to the drop list.
    pub fn read(&mut self, now: u64) -> (r: Option<DataPacket>)
        requires
            old(self).wf(),
        ensures
            final(self).wf(),
            final(self)@.drops == old(self)@.drops + expired_pairs(old(self)@.blocks, now),
            final(self)@.last_seq == old(self)@.last_seq,
            final(self)@.last_ack == old(self)@.last_ack,
            ({
                let live = old(self)@.blocks.filter(is_live(now));
                match first_fresh(live) {
                    Some(k) => r.is_some() && r.unwrap()@ == live[k].packet && final(self)@.blocks == live.update(
                        k,
                        SendBlockView { state: BlockState::Read, ..live[k] },
                    ) && forall|j: int|
                        0 <= j < live.len() && (#[trigger] live[j]).state == BlockState::Fresh ==> behind(live[j], old(self)@.last_seq) <= behind(
                            live[k],
                            old(self)@.last_seq,
                        ),
                    None => r.is_none() && final(self)@.blocks == live,
                }
            }),
    {
        self.manage_drops(now);
        let ghost live = self@.blocks;
        let ghost s1 = self@;
        let mut i: usize = 0;
        while i < self.blocks.len()
            invariant
                0 <= i <= self@.blocks.len(),
                live == self@.blocks,
                self@ == s1,
                self.wf(),
                s1.drops == old(self)@.drops + expired_pairs(old(self)@.blocks, now),
                s1.last_seq == old(self)@.last_seq,
                s1.last_ack == old(self)@.last_ack,
                live == old(self)@.blocks.filter(is_live(now)),
                forall|j: int| 0 <= j < i ==> (#[trigger] live[j]).state != BlockState::Fresh,
            decreases self@.blocks.len() - i,
        {
            if self.blocks[i].state == BlockState::Fresh {
                let out = self.blocks[i].duplicate();
                let ghost before = self.blocks@;
                self.blocks[i].state = BlockState::Read;
                proof {
                    assert(self@.blocks =~= live.update(i as int, SendBlockView { state: BlockState::Read, ..live[i as int] }));
                    lemma_restate_ordered(live, i as int, BlockState::Read, self@.last_seq);
                    lemma_first_fresh_lowest(live, old(self)@.last_seq, i as int);
                    assert(live[i as int].state == BlockState::Fresh);
                    let k = first_fresh(live).unwrap();
                    assert(k == i) by {
                        if k < i { assert(live[k].state != BlockState::Fresh); }
                        if k > i { }
                    }
                    assert forall|j: int| 0 <= j < self@.blocks.len() implies (#[trigger] self@.blocks[j]).packet.seq_no.wf() by {
                        assert(live[j].packet.seq_no.wf());
                    }
                }
                return Some(out);
            }
            i = i + 1;
        }
        None
    }

    /// The first stored fragment of message `msg_no`, after moving expired blocks to
    /// the drop list.
    pub fn read_recall(&mut self, msg_no: MessageNumber, now: u64) -> (r: Option<DataPacket>)
        requires
            old(self).wf(),
        ensures
            final(self).wf(),
            final(self)@.blocks == old(self)@.blocks.filter(is_live(now)),
            final(self)@.drops == old(self)@.drops + expired_pairs(old(self)@.blocks, now),
            r.is_none() <==> forall|k: int| 0 <= k < final(self)@.blocks.len() ==> (#[trigger] final(self)@.blocks[k]).packet.msg_no != msg_no,
            r.is_some() ==> exists|k: int|
                0 <= k < final(self)@.blocks.len() && (#[trigger] final(self)@.blocks[k]).packet == r.unwrap()@ && r.unwrap()@.msg_no == msg_no
                    && forall|j: int| 0 <= j < k ==> final(self)@.blocks[j].packet.msg_no != msg_no,
    {
        self.manage_drops(now);
        let ghost s1 = self@;
        let mut i: usize = 0;
        while i < self.blocks.len()
            invariant
                0 <= i <= self@.blocks.len(),
                self@ == s1,
                self.wf(),
                s1.drops == old(self)@.drops + expired_pairs(old(self)@.blocks, now),
                s1.blocks == old(self)@.blocks.filter(is_live(now)),
                forall|j: int| 0 <= j < i ==> (#[trigger] self@.blocks[j]).packet.msg_no != msg_no,
            decreases self@.blocks.len() - i,
        {
            if self.blocks[i].packet.msg_no == msg_no {
                let out = self.blocks[i].duplicate();
                proof {
                    assert(self@.blocks[i as int].packet == out@);
                }
                return Some(out);
            }
            i = i + 1;
        }
        None
    }

    /// The first stored fragment, in sending order, whose sequence number lies in `range`.
    pub fn search(&self, range: SequenceRange) -> (r: Option<DataPacket>)
        requires
            self.wf(),
            range.wf(),
        ensures
            r.is_none() <==> forall|k: int| 0 <= k < self@.blocks.len() ==> !range.has((#[trigger] self@.blocks[k]).packet.seq_no.0 as int),
            r.is_some() ==> exists|k: int|
                0 <= k < self@.blocks.len() && (#[trigger] self@.blocks[k]).packet == r.unwrap()@ && range.has(r.unwrap()@.seq_no.0 as int)
                    && (forall|j: int| 0 <= j < k ==> !range.has(self@.blocks[j].packet.seq_no.0 as int))
                    && lowest_in_range(self@.blocks, self@.last_seq, range, k),
    {
        let mut i: usize = 0;
        while i < self.blocks.len()
            invariant
                self.wf(),
                range.wf(),
                0 <= i <= self@.blocks.len(),
                forall|j: int| 0 <= j < i ==> !range.has((#[trigger] self@.blocks[j]).packet.seq_no.0 as int),
            decreases self@.blocks.len() - i,
        {
            proof {
                assert(self@.blocks[i as int].packet.seq_no.wf());
            }
            if range.contains(self.blocks[i].packet.seq_no) {
                let out = self.blocks[i].duplicate();
                proof {
                    assert(self@.blocks[i as int].packet == out@);
                    lemma_first_in_range_lowest(self@.blocks, self@.last_seq, range, i as int);
                }
                return Some(out);
            }
            i = i + 1;
        }
        None
    }

    /// Forgets the sent fragments up to `ack_no` and tells whether an ACK² is owed:
    /// more than the sync interval has passed since the last one, or the
    /// acknowledgement repeats the last one.
    pub fn ack(&mut self, ack_no: SequenceNumber, now: u64) -> (r: bool)
        requires
            old(self).wf(),
            ack_no.wf(),
        ensures
            final(self).wf(),
            final(self)@.blocks == old(self)@.blocks.filter(|b: SendBlockView| !is_acked(ack_no)(b)),
            final(self)@.drops == old(self)@.drops.filter(|d: (MessageNumber, SequenceNumber)| d.1.0 < 0x8000 && seq_before(ack_no.0 as int, d.1.0 as int)),
            r == (now.saturating_sub(old(self)@.last_ack_time) > SYN_INTERVAL || ack_no == old(self)@.last_ack),
            r ==> final(self)@.last_ack_time == now,
            !r ==> final(self)@.last_ack_time == old(self)@.last_ack_time,
            r && !seq_before(ack_no.0 as int, old(self)@.last_ack.0 as int) ==> final(self)@.last_ack == ack_no,
            !(r && !seq_before(ack_no.0 as int, old(self)@.last_ack.0 as int)) ==> final(self)@.last_ack == old(self)@.last_ack,
            !seq_before(final(self)@.last_ack.0 as int, old(self)@.last_ack.0 as int),
            final(self)@.last_seq == old(self)@.last_seq,
            final(self)@.last_msg == old(self)@.last_msg,
            final(self)@.last_ack_square == old(self)@.last_ack_square,
    {
        let mut old_blocks: Vec<SendBlock> = Vec::new();
        std::mem::swap(&mut old_blocks, &mut self.blocks);
        let ghost bs = old_blocks@.map_values(|b: SendBlock| b@);
        let ghost pred = |b: SendBlockView| !is_acked(ack_no)(b);
        let mut i: usize = 0;
        while i < old_blocks.len()
            invariant
                0 <= i <= old_blocks@.len(),
                ack_no.wf(),
                bs == old_blocks@.map_values(|b: SendBlock| b@),
                bs == old(self)@.blocks,
                forall|k: int| 0 <= k < bs.len() ==> (#[trigger] bs[k]).packet.seq_no.wf(),
                pred == (|b: SendBlockView| !is_acked(ack_no)(b)),
                self.blocks@.map_values(|b: SendBlock| b@) == bs.take(i as int).filter(pred),
                forall|k: int| 0 <= k < self.blocks@.len() ==> (#[trigger] self.blocks@[k])@.packet.seq_no.wf(),
                self.last_seq == old(self).last_seq,
                self.last_msg == old(self).last_msg,
                self.last_ack == old(self).last_ack,
                self.last_ack_square == old(self).last_ack_square,
                self.last_ack_time == old(self).last_ack_time,
                self.drops@ == old(self).drops@,
                self.last_seq.wf() && self.last_msg.wf() && self.last_ack.wf() && self.last_ack_square.wf(),
            decreases old_blocks@.len() - i,
        {
            let b = old_blocks[i].clone_block();
            proof {
                reveal(Seq::filter);
                assert(bs.take(i + 1).drop_last() =~= bs.take(i as int));
                assert(bs.take(i + 1).last() == b@);
                assert(bs[i as int].packet.seq_no.wf());
            }
            let acked = (b.packet.seq_no == ack_no || b.packet.seq_no.before(&ack_no)) && b.state == BlockState::Read;
            if !acked {
                let ghost before = self.blocks@;
                self.blocks.push(b);
                proof {
                    assert(self.blocks@.map_values(|b: SendBlock| b@) =~= before.map_values(|b: SendBlock| b@).push(b@));
                }
            }
            i = i + 1;
        }
        proof {
            assert(bs.take(bs.len() as int) =~= bs);
            lemma_filter_ordered(bs, pred, old(self)@.last_seq);
        }
        let mut old_drops: Vec<(MessageNumber, SequenceNumber)> = Vec::new();
        std::mem::swap(&mut old_drops, &mut self.drops);
        let ghost ds = old_drops@;
        let ghost dpred = |d: (MessageNumber, SequenceNumber)| d.1.0 < 0x8000 && seq_before(ack_no.0 as int, d.1.0 as int);
        let mut j: usize = 0;
        while j < old_drops.len()
            invariant
                0 <= j <= old_drops@.len(),
                ack_no.wf(),
                ds == old_drops@,
                dpred == (|d: (MessageNumber, SequenceNumber)| d.1.0 < 0x8000 && seq_before(ack_no.0 as int, d.1.0 as int)),
                self.drops@ == ds.take(j as int).filter(dpred),
                self.blocks@.map_values(|b: SendBlock| b@) == bs.filter(pred),
                sn_ordered(bs.filter(pred), old(self)@.last_seq),
                forall|k: int| 0 <= k < self.blocks@.len() ==> (#[trigger] self.blocks@[k])@.packet.seq_no.wf(),
                self.last_seq == old(self).last_seq,
                self.last_msg == old(self).last_msg,
                self.last_ack == old(self).last_ack,
                self.last_ack_square == old(self).last_ack_square,
                self.last_ack_time == old(self).last_ack_time,
                self.last_seq.wf() && self.last_msg.wf() && self.last_ack.wf() && self.last_ack_square.wf(),
            decreases old_drops@.len() - j,
        {
            let d = old_drops[j];
            proof {
                reveal(Seq::filter);
                assert(ds.take(j + 1).drop_last() =~= ds.take(j as int));
                assert(ds.take(j + 1).last() == d);
            }
            let after = if d.1.0 < 0x8000 { ack_no.before(&d.1) } else { false };
            proof {
                assert(after == dpred(d));
            }
            if after {
                self.drops.push(d);
            }
            j = j + 1;
        }
        proof {
            assert(ds.take(ds.len() as int) =~= ds);
        }
        let elapsed = now.saturating_sub(self.last_ack_time);
        if elapsed > SYN_INTERVAL || ack_no == self.last_ack {
            if !ack_no.before(&self.last_ack) {
                self.last_ack = ack_no;
            }
            self.last_ack_time = now;
            true
        } else {
            false
        }
    }

    /// Records the peer's ACK² for `ack_no`; the recorded value never moves back.
    pub fn ack_square(&mut self, ack_no: SequenceNumber, now: u64)
        requires
            old(self).wf(),
            ack_no.wf(),
        ensures
            final(self).wf(),
            !seq_before(ack_no.0 as int, old(self)@.last_ack_square.0 as int) ==> final(self)@.last_ack_square == ack_no,
            seq_before(ack_no.0 as int, old(self)@.last_ack_square.0 as int) ==> final(self)@.last_ack_square == old(self)@.last_ack_square,
            !seq_before(final(self)@.last_ack_square.0 as int, old(self)@.last_ack_square.0 as int),
            final(self)@.blocks == old(self)@.blocks,
            final(self)@.drops == old(self)@.drops,
            final(self)@.last_seq == old(self)@.last_seq,
            final(self)@.last_msg == old(self)@.last_msg,
            final(self)@.last_ack == old(self)@.last_ack,
            final(self)@.last_ack_time == old(self)@.last_ack_time,
    {
        if !ack_no.before(&self.last_ack_square) {
            self.last_ack_square = ack_no;
        }
        self.last_ack_square_time = now;
    }

    /// Takes the fragments given up since the last call, as (message, sequence) pairs.
    pub fn drop(&mut self) -> (r: Vec<(MessageNumber, SequenceNumber)>)
        requires
            old(self).wf(),
        ensures
            final(self).wf(),
            r@ == old(self)@.drops,
            final(self)@.drops.len() == 0,
            final(self)@.blocks == old(self)@.blocks,
            final(self)@.last_seq == old(self)@.last_seq,
            final(self)@.last_ack == old(self)@.last_ack,
    {
        let mut out: Vec<(MessageNumber, SequenceNumber)> = Vec::new();
        std::mem::swap(&mut out, &mut self.drops);
        out
    }

    /// Number of stored fragments.
    pub fn size(&self) -> (r: usize)
        ensures
            r == self@.blocks.len(),
    {
        self.blocks.len()
    }

    pub fn last_seq(&self) -> (r: SequenceNumber)
        ensures
            r == self@.last_seq,
    {
        self.last_seq
    }

    pub fn last_ack(&self) -> (r: SequenceNumber)
        ensures
            r == self@.last_ack,
    {
        self.last_ack
    }

    /// The sent but unacknowledged stretch `[last_ack, last_seq]`, if the two differ.
    pub fn keep_alive(&self) -> (r: Option<SequenceRange>)
        ensures
            self@.last_seq == self@.last_ack ==> r.is_none(),
            self@.last_seq != self@.last_ack ==> r == Some(SequenceRange { start: self@.last_ack, stop: self@.last_seq }),
    {
        if self.last_seq != self.last_ack {
            Some(SequenceRange { start: self.last_ack, stop: self.last_seq })
        } else {
            None
        }
    }
}

impl SendBlock {
    fn clone_block(&self) -> (r: SendBlock)
        ensures
            r@ == self@,
    {
        SendBlock { packet: self.duplicate(), timeout: self.timeout, state: self.state }
    }
}

/// Copies `data[from..to]`.
fn slice_copy(data: &[u8], from: usize, to: usize) -> (r: Vec<u8>)
    requires
        from <= to <= data@.len(),
    ensures
        r@ == data@.subrange(from as int, to as int),
{
    let mut out: Vec<u8> = Vec::new();
    let mut i: usize = from;
    while i < to
        invariant
            from <= i <= to,
            to <= data@.len(),
            out@ == data@.subrange(from as int, i as int),
        decreases to - i,
    {
        out.push(data[i]);
        proof {
            assert(data@.subrange(from as int, i + 1) =~= data@.subrange(from as int, i as int).push(data@[i as int]));
        }
        i = i + 1;
    }
    out
}

} // verus!
