use vstd::prelude::*;
use crate::loss_list::LossBuffer;
use crate::packet::Packet;
use crate::send_buffer::{is_acked, is_live, SendBlockView, SendBuffer, SendBufferView};
use crate::utils::{covered, seq_before, MessageNumber, SequenceNumber, SequenceRange};

verus! {

/// One connection's outgoing state: its fragments, the ranges the peer reported
/// lost, and the times at which it may send next (microseconds).
pub struct SendBacker {
    data_buffer: SendBuffer,
    loss_buffer: LossBuffer,
    updates: Vec<u64>,
}

pub struct BackerView {
    pub data: SendBufferView,
    pub loss: Seq<SequenceRange>,
    pub updates: Seq<u64>,
}

impl View for SendBacker {
    type V = BackerView;

    closed spec fn view(&self) -> BackerView {
        BackerView { data: self.data_buffer@, loss: self.loss_buffer@, updates: self.updates@ }
    }
}

impl SendBacker {
    pub closed spec fn wf(&self) -> bool {
        self.data_buffer.wf() && self.loss_buffer.wf()
    }
}

/// The outgoing state of every connection, keyed by socket id, and the sockets
/// waiting for the send worker.
pub struct SendList {
    connections: Vec<(u16, SendBacker)>,
    waiting: Vec<u16>,
}

pub struct SendListView {
    pub connections: Seq<(u16, BackerView)>,
    pub waiting: Seq<u16>,
}

impl View for SendList {
    type V = SendListView;

    closed spec fn view(&self) -> SendListView {
        SendListView {
            connections: self.connections@.map_values(|c: (u16, SendBacker)| (c.0, c.1@)),
            waiting: self.waiting@,
        }
    }
}

/// Position of socket `id`, or -1.
pub open spec fn socket_index(cs: Seq<(u16, BackerView)>, id: u16) -> int {
    if exists|k: int| 0 <= k < cs.len() && cs[k].0 == id {
        choose|k: int| 0 <= k < cs.len() && cs[k].0 == id
    } else {
        -1
    }
}

/// The loss ranges hold a sequence number of a stored fragment.
pub open spec fn has_retransmission(b: BackerView) -> bool {
    exists|k: int| 0 <= k < b.data.blocks.len() && covered(b.loss, #[trigger] b.data.blocks[k].packet.seq_no.0 as int)
}

impl SendList {
    pub closed spec fn wf(&self) -> bool {
        &&& forall|i: int| 0 <= i < self.connections@.len() ==> (#[trigger] self.connections@[i]).1.wf()
        &&& forall|i: int, j: int|
            0 <= i < self.connections@.len() && 0 <= j < self.connections@.len() && i != j ==> self.connections@[i].0 != self.connections@[j].0
    }

    pub fn new() -> (r: Self)
        ensures
            r.wf(),
            r@.connections.len() == 0,
            r@.waiting.len() == 0,
    {
        let r = SendList { connections: Vec::new(), waiting: Vec::new() };
        proof {
            assert(r@.connections =~= Seq::empty());
        }
        r
    }

    fn find(&self, id: u16) -> (r: Option<usize>)
        requires
            self.wf(),
        ensures
            match r {
                Some(k) => (k as int) < self@.connections.len() && self@.connections[k as int].0 == id && socket_index(self@.connections, id) == k as int,
                None => socket_index(self@.connections, id) == -1,
            },
    {
        let mut i: usize = 0;
        while i < self.connections.len()
            invariant
                0 <= i <= self@.connections.len(),
                self.wf(),
                forall|j: int| 0 <= j < i ==> self@.connections[j].0 != id,
            decreases self@.connections.len() - i,
        {
            if self.connections[i].0 == id {
                proof {
                    assert(self@.connections[i as int].0 == id);
                    let c = socket_index(self@.connections, id);
                    assert(self.connections@[c].0 == self.connections@[i as int].0);
                }
                return Some(i);
            }
            i = i + 1;
        }
        proof {
            assert forall|k: int| 0 <= k < self@.connections.len() implies self@.connections[k].0 != id by {}
        }
        None
    }

    /// Takes the backer at `k` out of the list.
    fn take(&mut self, k: usize) -> (r: SendBacker)
        requires
            old(self).wf(),
            k < old(self)@.connections.len(),
        ensures
            r.wf(),
            r@ == old(self)@.connections[k as int].1,
            final(self).connections@ == old(self).connections@.remove(k as int),
            final(self).waiting@ == old(self).waiting@,
    {
        let (_, b) = self.connections.remove(k);
        proof {
            assert(old(self).connections@[k as int].1.wf());
        }
        b
    }

    /// Puts a backer back at `k` under socket `id`.
    fn put(&mut self, k: usize, id: u16, b: SendBacker)
        requires
            k <= old(self).connections@.len(),
            b.wf(),
            forall|i: int| 0 <= i < old(self).connections@.len() ==> (#[trigger] old(self).connections@[i]).1.wf(),
            forall|i: int, j: int|
                0 <= i < old(self).connections@.len() && 0 <= j < old(self).connections@.len() && i != j ==> old(self).connections@[i].0 != old(self).connections@[j].0,
            forall|i: int| 0 <= i < old(self).connections@.len() ==> old(self).connections@[i].0 != id,
        ensures
            final(self).wf(),
            final(self).connections@ == old(self).connections@.insert(k as int, (id, b)),
            final(self)@.connections == old(self)@.connections.insert(k as int, (id, b@)),
            final(self).waiting@ == old(self).waiting@,
    {
        let ghost before = self.connections@;
        self.connections.insert(k, (id, b));
        proof {
            assert(self@.connections =~= old(self)@.connections.insert(k as int, (id, b@)));
            assert forall|i: int| 0 <= i < self.connections@.len() implies (#[trigger] self.connections@[i]).1.wf() by {
                if i < k { assert(self.connections@[i] == before[i]); }
                else if i > k { assert(self.connections@[i] == before[i - 1]); }
            }
            assert forall|i: int, j: int|
                0 <= i < self.connections@.len() && 0 <= j < self.connections@.len() && i != j implies self.connections@[i].0 != self.connections@[j].0 by {
                let ii = if i < k { i } else { i - 1 };
                let jj = if j < k { j } else { j - 1 };
                if i != k && j != k {
                    assert(self.connections@[i] == before[ii]);
                    assert(self.connections@[j] == before[jj]);
                } else if i == k {
                    assert(self.connections@[j] == before[jj]);
                } else {
                    assert(self.connections@[i] == before[ii]);
                }
            }
        }
    }

    proof fn lemma_index_at(&self, k: int, id: u16)
        requires
            self.wf(),
            0 <= k < self@.connections.len(),
            self@.connections[k].0 == id,
        ensures
            socket_index(self@.connections, id) == k,
    {
        let c = socket_index(self@.connections, id);
        assert(self.connections@[c].0 == self.connections@[k].0);
    }

    proof fn lemma_removed_unique(&self, k: int, rest: Seq<(u16, SendBacker)>)
        requires
            self.wf(),
            0 <= k < self.connections@.len(),
            rest == self.connections@.remove(k),
        ensures
            forall|i: int| 0 <= i < rest.len() ==> (#[trigger] rest[i]).1.wf(),
            forall|i: int, j: int| 0 <= i < rest.len() && 0 <= j < rest.len() && i != j ==> rest[i].0 != rest[j].0,
            forall|i: int| 0 <= i < rest.len() ==> rest[i].0 != self.connections@[k].0,
    {
        assert forall|i: int| 0 <= i < rest.len() implies (#[trigger] rest[i]).1.wf() by {
            if i < k { assert(rest[i] == self.connections@[i]); } else { assert(rest[i] == self.connections@[i + 1]); }
        }
        assert forall|i: int, j: int| 0 <= i < rest.len() && 0 <= j < rest.len() && i != j implies rest[i].0 != rest[j].0 by {
            let ii = if i < k { i } else { i + 1 };
            let jj = if j < k { j } else { j + 1 };
            assert(rest[i] == self.connections@[ii]);
            assert(rest[j] == self.connections@[jj]);
        }
        assert forall|i: int| 0 <= i < rest.len() implies rest[i].0 != self.connections@[k].0 by {
            let ii = if i < k { i } else { i + 1 };
            assert(rest[i] == self.connections@[ii]);
        }
    }

    /// Adds (or replaces) the state of `socket_id`, numbering from `self_isn`.
    pub fn register_connection(&mut self, socket_id: u16, self_isn: SequenceNumber, now: u64)
        requires
            old(self).wf(),
            self_isn.wf(),
        ensures
            final(self).wf(),
            socket_index(final(self)@.connections, socket_id) >= 0,
            ({
                let b = final(self)@.connections[socket_index(final(self)@.connections, socket_id)].1;
                b.data.last_seq == self_isn && b.data.blocks.len() == 0 && b.loss.len() == 0 && b.updates.len() == 0
            }),
    {
        let backer = SendBacker { data_buffer: SendBuffer::new(self_isn, now), loss_buffer: LossBuffer::new(), updates: Vec::new() };
        let k = match self.find(socket_id) {
            Some(k) => {
                let ghost s0 = *self;
                let _ = self.take(k);
                proof { s0.lemma_removed_unique(k as int, self.connections@); }
                k
            },
            None => {
                proof {
                    assert forall|i: int| 0 <= i < self.connections@.len() implies self.connections@[i].0 != socket_id by {
                        if self.connections@[i].0 == socket_id { assert(self@.connections[i].0 == socket_id); }
                    }
                }
                self.connections.len()
            },
        };
        self.put(k, socket_id, backer);
        proof {
            assert(self@.connections[k as int].0 == socket_id);
            let c = socket_index(self@.connections, socket_id);
            assert(self.connections@[c].0 == self.connections@[k as int].0);
        }
    }

    pub fn remove_connection(&mut self, socket_id: u16)
        requires
            old(self).wf(),
        ensures
            final(self).wf(),
            socket_index(old(self)@.connections, socket_id) >= 0 ==> final(self)@.connections == old(self)@.connections.remove(socket_index(old(self)@.connections, socket_id)),
            socket_index(old(self)@.connections, socket_id) < 0 ==> final(self)@.connections == old(self)@.connections,
    {
        match self.find(socket_id) {
            Some(k) => {
                let ghost s0 = *self;
                let _ = self.take(k);
                proof {
                    s0.lemma_removed_unique(k as int, self.connections@);
                    assert(self@.connections =~= s0@.connections.remove(k as int));
                }
            },
            None => {},
        }
    }

    /// Stores a message for `socket_id` (see `SendBuffer::add`); 0 when the socket is unknown.
    pub fn insert(
        &mut self,
        socket_id: u16,
        data: &[u8],
        ttl: u64,
        order: bool,
        partner_id: u16,
        mss: u16,
        now: u64,
        stamp: u16,
    ) -> (r: usize)
        requires
            old(self).wf(),
            mss > 0,
            data@.len() <= u32::MAX,
        ensures
            final(self).wf(),
            socket_index(old(self)@.connections, socket_id) < 0 ==> r == 0 && final(self)@ == old(self)@,
            socket_index(old(self)@.connections, socket_id) >= 0 ==> ({
                let k = socket_index(old(self)@.connections, socket_id);
                let o = old(self)@.connections[k].1;
                let n = final(self)@.connections[k].1;
                final(self)@.connections.len() == old(self)@.connections.len()
                    && final(self)@.connections[k].0 == socket_id
                    && (r == 0 ==> n == o)
                    && n.data.blocks.len() == o.data.blocks.len() + r
                    && n.data.last_seq.0 == (o.data.last_seq.0 + r) % 0x8000
                    && n.loss == o.loss
                    && n.updates == o.updates
                    && final(self)@.waiting == old(self)@.waiting
                    && socket_index(final(self)@.connections, socket_id) == k
            }),
    {
        match self.find(socket_id) {
            Some(k) => {
                let ghost s0 = *self;
                let mut b = self.take(k);
                proof { s0.lemma_removed_unique(k as int, self.connections@); }
                let r = b.data_buffer.add(data, ttl, order, partner_id, mss, now, stamp);
                self.put(k, socket_id, b);
                proof {
                    assert(self@.connections[k as int].1 == b@);
                    assert(self@.connections[k as int].0 == socket_id);
                    self.lemma_index_at(k as int, socket_id);
                }
                r
            },
            None => 0,
        }
    }

    /// Schedules `cnt` sends for `socket_id` at `now + delay`, `now + 2·delay`, ...
    /// and queues the socket that many times for the send worker.
    pub fn update(&mut self, socket_id: u16, cnt: usize, delay: u64, now: u64)
        requires
            old(self).wf(),
        ensures
            final(self).wf(),
            socket_index(old(self)@.connections, socket_id) < 0 ==> final(self)@ == old(self)@,
            socket_index(old(self)@.connections, socket_id) >= 0 ==> ({
                let k = socket_index(old(self)@.connections, socket_id);
                final(self)@.connections[k].1.updates == old(self)@.connections[k].1.updates + Seq::new(
                    cnt as nat,
                    |i: int| sched_time(now, delay, i),
                ) && final(self)@.waiting == old(self)@.waiting + Seq::new(cnt as nat, |i: int| socket_id)
                    && final(self)@.connections.len() == old(self)@.connections.len()
                    && final(self)@.connections[k].1.data == old(self)@.connections[k].1.data
                    && final(self)@.connections[k].1.loss == old(self)@.connections[k].1.loss
                    && socket_index(final(self)@.connections, socket_id) == k
            }),
    {
        match self.find(socket_id) {
            Some(k) => {
                let ghost s0 = *self;
                let mut b = self.take(k);
                proof { s0.lemma_removed_unique(k as int, self.connections@); }
                let ghost u0 = b.updates@;
                let ghost w0 = self.waiting@;
                let mut i: usize = 0;
                while i < cnt
                    invariant
                        0 <= i <= cnt,
                        b.wf(),
                        b@.data == old(self)@.connections[k as int].1.data,
                        b@.loss == old(self)@.connections[k as int].1.loss,
                        k < old(self)@.connections.len(),
                        socket_index(old(self)@.connections, socket_id) == k as int,
                        b.updates@ == u0 + Seq::new(i as nat, |j: int| sched_time(now, delay, j)),
                        self.waiting@ == w0 + Seq::new(i as nat, |j: int| socket_id),
                        self.connections@ == s0.connections@.remove(k as int),
                    decreases cnt - i,
                {
                    proof {
                        assert((delay as int) * ((i as int) + 1) <= 0xffff_ffff_ffff_ffff * 0x1_0000_0000_0000_0000) by (nonlinear_arith)
                            requires delay <= 0xffff_ffff_ffff_ffff, i < 0xffff_ffff_ffff_ffff;
                    }
                    let t = (delay as u128) * ((i as u128) + 1) + now as u128;
                    let t64: u64 = if t > u64::MAX as u128 { u64::MAX } else { t as u64 };
                    b.updates.push(t64);
                    self.waiting.push(socket_id);
                    proof {
                        assert(b.updates@ =~= u0 + Seq::new((i + 1) as nat, |j: int| sched_time(now, delay, j)));
                        assert(self.waiting@ =~= w0 + Seq::new((i + 1) as nat, |j: int| socket_id));
                    }
                    i = i + 1;
                }
                self.put(k, socket_id, b);
                proof {
                    assert(self@.connections[k as int].1 == b@);
                    assert(self@.connections[k as int].0 == socket_id);
                    self.lemma_index_at(k as int, socket_id);
                }
            },
            None => {},
        }
    }

    /// Takes the fragments of `socket_id` given up since the last call.
    pub fn drops(&mut self, socket_id: u16) -> (r: Vec<(MessageNumber, SequenceNumber)>)
        requires
            old(self).wf(),
        ensures
            final(self).wf(),
            socket_index(old(self)@.connections, socket_id) < 0 ==> r@.len() == 0,
            socket_index(old(self)@.connections, socket_id) >= 0 ==> r@ == old(self)@.connections[socket_index(old(self)@.connections, socket_id)].1.data.drops,
    {
        match self.find(socket_id) {
            Some(k) => {
                let ghost s0 = *self;
                let mut b = self.take(k);
                proof { s0.lemma_removed_unique(k as int, self.connections@); }
                let r = b.data_buffer.drop();
                self.put(k, socket_id, b);
                r
            },
            None => Vec::new(),
        }
    }

    /// The next packet to send on `socket_id`: a stored fragment that the peer
    /// reported lost, if any (its number leaves the loss list; ranges with nothing
    /// left to resend are dropped), else the first fresh fragment.
    pub fn pop(&mut self, socket_id: u16, now: u64) -> (r: Option<Packet>)
        requires
            old(self).wf(),
        ensures
            final(self).wf(),
            socket_index(old(self)@.connections, socket_id) < 0 ==> r.is_none(),
            socket_index(old(self)@.connections, socket_id) >= 0 ==> ({
                let i = socket_index(old(self)@.connections, socket_id);
                let o = old(self)@.connections[i].1;
                let n = final(self)@.connections[i].1;
                let live = o.data.blocks.filter(is_live(now));
                &&& final(self)@.connections.len() == old(self)@.connections.len()
                &&& final(self)@.connections[i].0 == socket_id
                &&& has_retransmission(o) ==> (exists|k: int|
                    0 <= k < o.data.blocks.len() && covered(o.loss, o.data.blocks[k].packet.seq_no.0 as int)
                        && data_of(r) == Some(#[trigger] o.data.blocks[k].packet))
                        && !covered(n.loss, data_of(r).unwrap().seq_no.0 as int)
                        && n.data == o.data
                &&& !has_retransmission(o) ==> n.loss.len() == 0 && match crate::send_buffer::first_fresh(live) {
                    Some(j) => data_of(r) == Some(live[j].packet),
                    None => r.is_none(),
                }
            }),
    {
        match self.find(socket_id) {
            Some(k) => {
                let ghost s0 = *self;
                let mut b = self.take(k);
                proof { s0.lemma_removed_unique(k as int, self.connections@); }
                let ghost o = b@;
                loop
                    invariant
                        b.wf(),
                        o == old(self)@.connections[k as int].1,
                        socket_index(old(self)@.connections, socket_id) == k as int,
                        s0.connections@ == old(self).connections@,
                        s0.waiting@ == old(self).waiting@,
                        self.waiting@ == old(self).waiting@,
                        k < old(self).connections@.len(),
                        b.data_buffer@ == o.data,
                        b@.updates == o.updates,
                        forall|j: int| 0 <= j < o.data.blocks.len() ==> covered(b.loss_buffer@, #[trigger] o.data.blocks[j].packet.seq_no.0 as int)
                            == covered(o.loss, o.data.blocks[j].packet.seq_no.0 as int),
                        self.connections@ == s0.connections@.remove(k as int),
                        forall|i: int| 0 <= i < self.connections@.len() ==> (#[trigger] self.connections@[i]).1.wf(),
                        forall|i: int, j: int| 0 <= i < self.connections@.len() && 0 <= j < self.connections@.len() && i != j ==> self.connections@[i].0 != self.connections@[j].0,
                        forall|i: int| 0 <= i < self.connections@.len() ==> self.connections@[i].0 != socket_id,
                        k <= self.connections@.len(),
                    decreases b.loss_buffer@.len(),
                {
                    match b.loss_buffer.first() {
                        Some(range) => {
                            proof {
                                let q = choose|q: int| 0 <= q < b.loss_buffer@.len() && Some(range) == Some(b.loss_buffer@[q]) && forall|j: int| 0 <= j < b.loss_buffer@.len() ==> b.loss_buffer@[q].start.0 <= (#[trigger] b.loss_buffer@[j]).start.0;
                                assert(b.loss_buffer@[q].wf());
                            }
                            match b.data_buffer.search(range) {
                                Some(packet) => {
                                    let ghost pv = packet@;
                                    let ghost kk = choose|kk: int| 0 <= kk < o.data.blocks.len() && (#[trigger] o.data.blocks[kk]).packet == pv && range.has(pv.seq_no.0 as int)
                                            && forall|j: int| 0 <= j < kk ==> !range.has(o.data.blocks[j].packet.seq_no.0 as int);
                                    proof {
                                        let kk2 = choose|kk: int| 0 <= kk < o.data.blocks.len() && (#[trigger] o.data.blocks[kk]).packet == pv && range.has(pv.seq_no.0 as int)
                                            && forall|j: int| 0 <= j < kk ==> !range.has(o.data.blocks[j].packet.seq_no.0 as int);
                                        let q = choose|q: int| 0 <= q < b.loss_buffer@.len() && Some(range) == Some(b.loss_buffer@[q]) && forall|j: int| 0 <= j < b.loss_buffer@.len() ==> b.loss_buffer@[q].start.0 <= (#[trigger] b.loss_buffer@[j]).start.0;
                                        assert(b.loss_buffer@[q].has(pv.seq_no.0 as int));
                                        assert(covered(b.loss_buffer@, o.data.blocks[kk].packet.seq_no.0 as int));
                                        assert(o.data.blocks[kk].packet.seq_no.wf());
                                    }
                                    b.loss_buffer.remove(packet.seq_no);
                                    self.put(k, socket_id, b);
                                    proof {
                                        assert(self@.connections[k as int].1 == b@);
                                        assert(!covered(b.loss_buffer@, packet.seq_no.0 as int));
                                        assert(data_of(Some(Packet::Data(packet))) == Some(pv));
                                        assert(covered(o.loss, o.data.blocks[kk].packet.seq_no.0 as int));
                                        assert(has_retransmission(o));
                                        assert(self@.connections.len() == old(self)@.connections.len());
                                        assert(self@.connections[k as int].0 == socket_id);
                                        assert(socket_index(old(self)@.connections, socket_id) == k as int);
                                    }
                                    return Some(Packet::Data(packet));
                                },
                                None => {
                                    let ghost l0 = b.loss_buffer@;
                                    let _ = b.loss_buffer.pop();
                                    proof {
                                        let q = choose|q: int| 0 <= q < l0.len() && Some(range) == Some(l0[q]) && forall|j: int| 0 <= j < l0.len() ==> l0[q].start.0 <= (#[trigger] l0[j]).start.0;
                                        let q2 = choose|q2: int| 0 <= q2 < l0.len() && b.loss_buffer@ == l0.remove(q2) && forall|j: int| 0 <= j < l0.len() ==> l0[q2].start.0 <= (#[trigger] l0[j]).start.0;
                                        assert forall|j: int| 0 <= j < o.data.blocks.len() implies covered(b.loss_buffer@, #[trigger] o.data.blocks[j].packet.seq_no.0 as int)
                                            == covered(l0, o.data.blocks[j].packet.seq_no.0 as int) by {
                                            let n = o.data.blocks[j].packet.seq_no.0 as int;
                                            lemma_covered_remove(l0, q2, n);
                                            assert(!range.has(n));
                                            if l0[q2].has(n) && !covered(b.loss_buffer@, n) {
                                                assert(l0[q2].start.0 <= l0[q].start.0);
                                                lemma_disjoint_same_start(l0, q, q2, n);
                                            }
                                        }
                                    }
                                },
                            }
                        },
                        None => {
                            proof {
                                assert forall|j: int| 0 <= j < o.data.blocks.len() implies !covered(o.loss, #[trigger] o.data.blocks[j].packet.seq_no.0 as int) by {
                                    assert(!covered(b.loss_buffer@, o.data.blocks[j].packet.seq_no.0 as int));
                                }
                            }
                            let r = b.data_buffer.read(now);
                            self.put(k, socket_id, b);
                            proof {
                                assert(self@.connections[k as int].1 == b@);
                                assert(!has_retransmission(o));
                                        assert(self@.connections.len() == old(self)@.connections.len());
                                        assert(self@.connections[k as int].0 == socket_id);
                                        assert(socket_index(old(self)@.connections, socket_id) == k as int);
                            }
                            return match r {
                                Some(p) => Some(Packet::Data(p)),
                                None => None,
                            };
                        },
                    }
                }
            },
            None => None,
        }
    }

    /// Records a loss report for `socket_id`; only ranges that end before the last
    /// sequence number sent are kept, since later numbers were never sent.
    pub fn loss(&mut self, socket_id: u16, loss: SequenceRange)
        requires
            old(self).wf(),
            loss.wf(),
        ensures
            final(self).wf(),
            socket_index(old(self)@.connections, socket_id) < 0 ==> final(self)@ == old(self)@,
            socket_index(old(self)@.connections, socket_id) >= 0 ==> ({
                let k = socket_index(old(self)@.connections, socket_id);
                let o = old(self)@.connections[k].1;
                let n = final(self)@.connections[k].1;
                final(self)@.connections.len() == old(self)@.connections.len() && n.data == o.data
                    && n.updates == o.updates && final(self)@.waiting == old(self)@.waiting
                    && final(self)@.connections[k].0 == socket_id
                    && if seq_before(loss.stop.0 as int, o.data.last_seq.0 as int) {
                        forall|x: int| #[trigger] covered(n.loss, x) == (covered(o.loss, x) || loss.has(x))
                    } else {
                        n.loss == o.loss
                    }
            }),
    {
        match self.find(socket_id) {
            Some(k) => {
                let ghost s0 = *self;
                let mut b = self.take(k);
                proof { s0.lemma_removed_unique(k as int, self.connections@); }
                let last = b.data_buffer.last_seq();
                if loss.stop.before(&last) {
                    b.loss_buffer.insert(loss);
                }
                self.put(k, socket_id, b);
                proof {
                    assert(self@.connections[k as int].1 == b@);
                }
            },
            None => {},
        }
    }

    /// Whether `ack_no` lies after the last sequence number sent on `socket_id`.
    pub fn out_of_sequence(&self, socket_id: u16, ack_no: SequenceNumber) -> (r: bool)
        requires
            self.wf(),
            ack_no.wf(),
        ensures
            socket_index(self@.connections, socket_id) < 0 ==> !r,
            socket_index(self@.connections, socket_id) >= 0 ==> r == seq_before(
                self@.connections[socket_index(self@.connections, socket_id)].1.data.last_seq.0 as int,
                ack_no.0 as int,
            ),
    {
        match self.find(socket_id) {
            Some(k) => {
                proof { assert(self.connections@[k as int].1.wf()); }
                self.connections[k].1.data_buffer.last_seq().before(&ack_no)
            },
            None => false,
        }
    }

    /// Whether an ACK² for `ack_no` on `socket_id` is stale: it lies before the last
    /// acknowledgement.
    pub fn out_of_sequence_square(&self, socket_id: u16, ack_no: SequenceNumber) -> (r: bool)
        requires
            self.wf(),
            ack_no.wf(),
        ensures
            socket_index(self@.connections, socket_id) < 0 ==> !r,
            socket_index(self@.connections, socket_id) >= 0 ==> r == seq_before(
                ack_no.0 as int,
                self@.connections[socket_index(self@.connections, socket_id)].1.data.last_ack.0 as int,
            ),
    {
        match self.find(socket_id) {
            Some(k) => {
                proof { assert(self.connections@[k as int].1.wf()); }
                ack_no.before(&self.connections[k].1.data_buffer.last_ack())
            },
            None => false,
        }
    }

    /// Trims the loss list of `socket_id` to what follows `ack_no`.
    pub fn remove_confirmed(&mut self, socket_id: u16, ack_no: SequenceNumber)
        requires
            old(self).wf(),
            ack_no.wf(),
        ensures
            final(self).wf(),
            socket_index(old(self)@.connections, socket_id) < 0 ==> final(self)@ == old(self)@,
            socket_index(old(self)@.connections, socket_id) >= 0 ==> socket_index(final(self)@.connections, socket_id)
                == socket_index(old(self)@.connections, socket_id),
            socket_index(old(self)@.connections, socket_id) >= 0 ==> ({
                let k = socket_index(old(self)@.connections, socket_id);
                final(self)@.connections.len() == old(self)@.connections.len()
                    && final(self)@.connections[k].1.loss == crate::loss_list::confirm_all(old(self)@.connections[k].1.loss, ack_no)
                    && final(self)@.connections[k].1.data == old(self)@.connections[k].1.data
                    && final(self)@.connections[k].1.updates == old(self)@.connections[k].1.updates
            }),
    {
        match self.find(socket_id) {
            Some(k) => {
                let ghost s0 = *self;
                let mut b = self.take(k);
                proof { s0.lemma_removed_unique(k as int, self.connections@); }
                b.loss_buffer.remove_confirmed(ack_no);
                self.put(k, socket_id, b);
                proof {
                    assert(self@.connections[k as int].1 == b@);
                    assert(self@.connections[k as int].0 == socket_id);
                    self.lemma_index_at(k as int, socket_id);
                }
            },
            None => {},
        }
    }

    /// Passes an acknowledgement to the send buffer of `socket_id` (see
    /// `SendBuffer::ack`); false when the socket is unknown.
    pub fn ack(&mut self, socket_id: u16, ack_no: SequenceNumber, now: u64) -> (r: bool)
        requires
            old(self).wf(),
            ack_no.wf(),
        ensures
            final(self).wf(),
            socket_index(old(self)@.connections, socket_id) < 0 ==> !r && final(self)@ == old(self)@,
            socket_index(old(self)@.connections, socket_id) >= 0 ==> socket_index(final(self)@.connections, socket_id)
                == socket_index(old(self)@.connections, socket_id),
            socket_index(old(self)@.connections, socket_id) >= 0 ==> ({
                let k = socket_index(old(self)@.connections, socket_id);
                let o = old(self)@.connections[k].1.data;
                let n = final(self)@.connections[k].1.data;
                final(self)@.connections.len() == old(self)@.connections.len()
                    && final(self)@.connections[k].0 == socket_id
                    && r == (now.saturating_sub(o.last_ack_time) > crate::send_buffer::SYN_INTERVAL || ack_no == o.last_ack)
                    && !seq_before(n.last_ack.0 as int, o.last_ack.0 as int)
                    && n.last_ack == (if r && !seq_before(ack_no.0 as int, o.last_ack.0 as int) { ack_no } else { o.last_ack })
                    && n.blocks == o.blocks.filter(|b: SendBlockView| !is_acked(ack_no)(b))
                    && n.last_seq == o.last_seq
                    && final(self)@.connections[k].1.loss == old(self)@.connections[k].1.loss
                    && final(self)@.connections[k].1.updates == old(self)@.connections[k].1.updates
                    && final(self)@.waiting == old(self)@.waiting
            }),
    {
        match self.find(socket_id) {
            Some(k) => {
                let ghost s0 = *self;
                let mut b = self.take(k);
                proof { s0.lemma_removed_unique(k as int, self.connections@); }
                let r = b.data_buffer.ack(ack_no, now);
                self.put(k, socket_id, b);
                proof {
                    assert(self@.connections[k as int].1 == b@);
                    assert(self@.connections[k as int].0 == socket_id);
                    self.lemma_index_at(k as int, socket_id);
                }
                r
            },
            None => false,
        }
    }

    /// Records the peer's ACK² on `socket_id`.
    pub fn ack_square(&mut self, socket_id: u16, ack_no: SequenceNumber, now: u64)
        requires
            old(self).wf(),
            ack_no.wf(),
        ensures
            final(self).wf(),
            socket_index(old(self)@.connections, socket_id) < 0 ==> final(self)@ == old(self)@,
            socket_index(old(self)@.connections, socket_id) >= 0 ==> socket_index(final(self)@.connections, socket_id)
                == socket_index(old(self)@.connections, socket_id),
            socket_index(old(self)@.connections, socket_id) >= 0 ==> ({
                let k = socket_index(old(self)@.connections, socket_id);
                let o = old(self)@.connections[k].1.data;
                let n = final(self)@.connections[k].1.data;
                final(self)@.connections.len() == old(self)@.connections.len()
                    && final(self)@.connections[k].0 == socket_id
                    && !seq_before(n.last_ack_square.0 as int, o.last_ack_square.0 as int)
                    && n.last_ack_square == (if !seq_before(ack_no.0 as int, o.last_ack_square.0 as int) { ack_no } else { o.last_ack_square })
                    && n.last_ack == o.last_ack
                    && n.blocks == o.blocks
                    && n.last_seq == o.last_seq
                    && final(self)@.connections[k].1.loss == old(self)@.connections[k].1.loss
                    && final(self)@.waiting == old(self)@.waiting
            }),
    {
        match self.find(socket_id) {
            Some(k) => {
                let ghost s0 = *self;
                let mut b = self.take(k);
                proof { s0.lemma_removed_unique(k as int, self.connections@); }
                b.data_buffer.ack_square(ack_no, now);
                self.put(k, socket_id, b);
                proof {
                    assert(self@.connections[k as int].1 == b@);
                    assert(self@.connections[k as int].0 == socket_id);
                    self.lemma_index_at(k as int, socket_id);
                }
            },
            None => {},
        }
    }

    /// The sockets waiting for the send worker, one entry per scheduled send.
    pub fn poll(&self) -> (r: Vec<u16>)
        ensures
            r@ == self@.waiting,
    {
        let mut out: Vec<u16> = Vec::new();
        let mut i: usize = 0;
        while i < self.waiting.len()
            invariant
                0 <= i <= self@.waiting.len(),
                out@ == self@.waiting.take(i as int),
            decreases self@.waiting.len() - i,
        {
            out.push(self.waiting[i]);
            proof {
                assert(self@.waiting.take(i + 1) =~= self@.waiting.take(i as int).push(self@.waiting[i as int]));
            }
            i = i + 1;
        }
        proof {
            assert(self@.waiting.take(self@.waiting.len() as int) =~= self@.waiting);
        }
        out
    }

    /// The last sequence number used on `socket_id`.
    pub fn last_seq(&self, socket_id: u16) -> (r: Option<SequenceNumber>)
        requires
            self.wf(),
        ensures
            socket_index(self@.connections, socket_id) < 0 ==> r.is_none(),
            socket_index(self@.connections, socket_id) >= 0 ==> r == Some(self@.connections[socket_index(self@.connections, socket_id)].1.data.last_seq),
    {
        match self.find(socket_id) {
            Some(k) => Some(self.connections[k].1.data_buffer.last_seq()),
            None => None,
        }
    }

    /// When sent data is unacknowledged on `socket_id`, schedules it for
    /// retransmission (the retransmission keeps the peer alive) and returns false;
    /// returns true when an explicit keep-alive is needed. False for an unknown socket.
    pub fn keep_alive(&mut self, socket_id: u16, now: u64) -> (r: bool)
        requires
            old(self).wf(),
        ensures
            final(self).wf(),
            socket_index(old(self)@.connections, socket_id) < 0 ==> !r && final(self)@ == old(self)@,
            socket_index(old(self)@.connections, socket_id) >= 0 ==> ({
                let k = socket_index(old(self)@.connections, socket_id);
                let o = old(self)@.connections[k].1;
                let n = final(self)@.connections[k].1;
                final(self)@.connections.len() == old(self)@.connections.len()
                    && r == (o.data.last_seq == o.data.last_ack)
                    && n.data == o.data
                    && (!r ==> forall|x: int| #[trigger] covered(n.loss, x) == (covered(o.loss, x)
                        || (SequenceRange { start: o.data.last_ack, stop: o.data.last_seq }).has(x)))
                    && (!r ==> final(self)@.waiting == old(self)@.waiting.push(socket_id) && n.updates == o.updates.push(now))
                    && (r ==> n == o && final(self)@.waiting == old(self)@.waiting)
            }),
    {
        match self.find(socket_id) {
            Some(k) => {
                let ghost s0 = *self;
                let mut b = self.take(k);
                proof { s0.lemma_removed_unique(k as int, self.connections@); }
                let r = match b.data_buffer.keep_alive() {
                    Some(range) => {
                        b.loss_buffer.insert(range);
                        self.waiting.push(socket_id);
                        b.updates.push(now);
                        false
                    },
                    None => true,
                };
                self.put(k, socket_id, b);
                proof {
                    assert(self@.connections[k as int].1 == b@);
                }
                r
            },
            None => false,
        }
    }

    /// Index of the earliest scheduled time in `u`.
    fn earliest(u: &Vec<u64>) -> (r: usize)
        requires
            u@.len() > 0,
        ensures
            r < u@.len(),
            forall|j: int| 0 <= j < u@.len() ==> u@[r as int] <= #[trigger] u@[j],
    {
        let mut best: usize = 0;
        let mut i: usize = 1;
        while i < u.len()
            invariant
                0 < u@.len(),
                1 <= i <= u@.len(),
                best < i,
                forall|j: int| 0 <= j < i ==> u@[best as int] <= #[trigger] u@[j],
            decreases u@.len() - i,
        {
            if u[i] < u[best] {
                best = i;
            }
            i = i + 1;
        }
        best
    }

    /// Takes the earliest scheduled send of `socket_id` and one of its waiting
    /// entries; returns how long until that send is due (zero when already due).
    pub fn pop_time(&mut self, socket_id: u16, now: u64) -> (r: Option<u64>)
        requires
            old(self).wf(),
        ensures
            final(self).wf(),
            socket_index(old(self)@.connections, socket_id) < 0 ==> r.is_none() && final(self)@ == old(self)@,
            socket_index(old(self)@.connections, socket_id) >= 0 ==> ({
                let k = socket_index(old(self)@.connections, socket_id);
                let o = old(self)@.connections[k].1;
                let n = final(self)@.connections[k].1;
                final(self)@.connections.len() == old(self)@.connections.len() && n.data == o.data && n.loss == o.loss
                    && (o.updates.len() == 0 ==> r.is_none() && n.updates == o.updates)
                    && (o.updates.len() > 0 ==> exists|q: int|
                        0 <= q < o.updates.len() && n.updates == o.updates.remove(q)
                            && r == Some(o.updates[q].saturating_sub(now))
                            && forall|j: int| 0 <= j < o.updates.len() ==> o.updates[q] <= #[trigger] o.updates[j])
            }),
    {
        match self.find(socket_id) {
            Some(k) => {
                let ghost s0 = *self;
                let mut b = self.take(k);
                proof { s0.lemma_removed_unique(k as int, self.connections@); }
                let mut w: usize = 0;
                while w < self.waiting.len()
                    invariant
                        0 <= w <= self.waiting@.len(),
                    decreases self.waiting@.len() - w,
                {
                    if self.waiting[w] == socket_id {
                        break;
                    }
                    w = w + 1;
                }
                if w < self.waiting.len() {
                    self.waiting.remove(w);
                }
                let r = if b.updates.len() > 0 {
                    let q = Self::earliest(&b.updates);
                    let t = b.updates.remove(q);
                    Some(t.saturating_sub(now))
                } else {
                    None
                };
                self.put(k, socket_id, b);
                proof {
                    assert(self@.connections[k as int].1 == b@);
                }
                r
            },
            None => None,
        }
    }

    /// The socket whose earliest scheduled send is due first, and how long until
    /// then; that scheduled send is taken off. `None` when nothing is scheduled.
    pub fn next_time(&mut self, now: u64) -> (r: Option<(u16, u64)>)
        requires
            old(self).wf(),
        ensures
            final(self).wf(),
            r.is_none() <==> forall|i: int| 0 <= i < old(self)@.connections.len() ==> (#[trigger] old(self)@.connections[i]).1.updates.len() == 0,
            r.is_none() ==> final(self)@ == old(self)@,
            r.is_some() ==> ({
                let (id, d) = r.unwrap();
                let k = socket_index(old(self)@.connections, id);
                let u = old(self)@.connections[k].1.updates;
                &&& k >= 0
                &&& forall|j: int, q: int|
                    0 <= j < old(self)@.connections.len() && 0 <= q < old(self)@.connections[j].1.updates.len()
                        ==> d <= (#[trigger] old(self)@.connections[j].1.updates[q]).saturating_sub(now)
                &&& exists|q: int|
                    0 <= q < u.len() && d == u[q].saturating_sub(now) && final(self)@.connections[k].1.updates == u.remove(q)
                        && forall|q2: int| 0 <= q2 < u.len() ==> u[q] <= #[trigger] u[q2]
                &&& final(self)@.connections.len() == old(self)@.connections.len()
                &&& final(self)@.connections[k].1.data == old(self)@.connections[k].1.data
                &&& final(self)@.connections[k].1.loss == old(self)@.connections[k].1.loss
            }),
    {
        let mut best: Option<(u16, u64)> = None;
        let mut i: usize = 0;
        while i < self.connections.len()
            invariant
                0 <= i <= self@.connections.len(),
                self.wf(),
                self@ == old(self)@,
                best.is_none() <==> forall|j: int| 0 <= j < i ==> (#[trigger] self@.connections[j]).1.updates.len() == 0,
                best.is_some() ==> exists|j: int| 0 <= j < i && (#[trigger] self@.connections[j]).0 == best.unwrap().0
                    && self@.connections[j].1.updates.len() > 0
                    && (exists|q: int| 0 <= q < self@.connections[j].1.updates.len() && best.unwrap().1 == (#[trigger] self@.connections[j].1.updates[q]).saturating_sub(now))
                    && forall|q: int| 0 <= q < self@.connections[j].1.updates.len() ==> best.unwrap().1 <= (#[trigger] self@.connections[j].1.updates[q]).saturating_sub(now),
                best.is_some() ==> forall|j: int, q: int|
                    0 <= j < i && 0 <= q < self@.connections[j].1.updates.len() ==> best.unwrap().1 <= (#[trigger] self@.connections[j].1.updates[q]).saturating_sub(now),
            decreases self@.connections.len() - i,
        {
            let u = &self.connections[i].1.updates;
            proof {
                assert(u@ == self@.connections[i as int].1.updates);
            }
            if u.len() > 0 {
                let q = Self::earliest(u);
                let d = u[q].saturating_sub(now);
                let better = match best {
                    Some((_, bd)) => d < bd,
                    None => true,
                };
                if better {
                    best = Some((self.connections[i].0, d));
                    proof {
                        assert(self@.connections[i as int].0 == self.connections[i as int].0);
                        assert(d == self@.connections[i as int].1.updates[q as int].saturating_sub(now));
                    }
                }
                proof {
                    assert(self@.connections[i as int].1.updates.len() > 0);
                }
            }
            i = i + 1;
        }
        match best {
            Some((id, d)) => {
                let ghost j = choose|j: int| 0 <= j < old(self)@.connections.len() && (#[trigger] old(self)@.connections[j]).0 == id
                    && old(self)@.connections[j].1.updates.len() > 0
                    && (exists|q: int| 0 <= q < old(self)@.connections[j].1.updates.len() && d == (#[trigger] old(self)@.connections[j].1.updates[q]).saturating_sub(now))
                    && forall|q: int| 0 <= q < old(self)@.connections[j].1.updates.len() ==> d <= (#[trigger] old(self)@.connections[j].1.updates[q]).saturating_sub(now);
                proof {
                    let c = socket_index(old(self)@.connections, id);
                    assert(old(self)@.connections[j].0 == id);
                    assert(old(self).connections@[c].0 == old(self).connections@[j].0);
                    assert(c == j);
                }
                let delay = match self.pop_time(id, now) {
                    Some(x) => x,
                    None => d,
                };
                proof {
                    let u = old(self)@.connections[j].1.updates;
                    let q = choose|q: int|
                        0 <= q < u.len() && final(self)@.connections[j].1.updates == u.remove(q) && Some(delay) == Some(u[q].saturating_sub(now))
                            && forall|q2: int| 0 <= q2 < u.len() ==> u[q] <= #[trigger] u[q2];
                    assert(d <= u[q].saturating_sub(now));
                    let q0 = choose|q0: int| 0 <= q0 < u.len() && d == (#[trigger] u[q0]).saturating_sub(now);
                    assert(u[q] <= u[q0]);
                    assert(delay == d);
                }
                Some((id, delay))
            },
            None => None,
        }
    }
}

/// The data packet inside `r`, if any.
pub open spec fn data_of(r: Option<Packet>) -> Option<crate::packet::data::DataPacketView> {
    match r {
        Some(Packet::Data(p)) => Some(p@),
        _ => None,
    }
}

/// Scheduled time of the `i`-th of a run of sends: `now + (i + 1)·delay`, saturating.
pub open spec fn sched_time(now: u64, delay: u64, i: int) -> u64 {
    if now + delay * (i + 1) > u64::MAX {
        u64::MAX
    } else {
        (now + delay * (i + 1)) as u64
    }
}

proof fn lemma_covered_remove(l: Seq<SequenceRange>, q: int, n: int)
    requires
        0 <= q < l.len(),
    ensures
        covered(l.remove(q), n) ==> covered(l, n),
        covered(l, n) ==> covered(l.remove(q), n) || l[q].has(n),
{
    let m = l.remove(q);
    if covered(m, n) {
        let i = choose|i: int| 0 <= i < m.len() && (#[trigger] m[i]).has(n);
        if i < q { assert(m[i] == l[i]); } else { assert(m[i] == l[i + 1]); }
    }
    if covered(l, n) && !l[q].has(n) {
        let i = choose|i: int| 0 <= i < l.len() && (#[trigger] l[i]).has(n);
        if i < q { assert(m[i] == l[i]); } else { assert(m[i - 1] == l[i]); }
    }
}

proof fn lemma_disjoint_same_start(l: Seq<SequenceRange>, a: int, b: int, n: int)
    requires
        0 <= a < l.len(),
        0 <= b < l.len(),
        l[b].start.0 <= l[a].start.0,
        l[a].start.0 <= l[b].start.0,
        crate::utils::ranges_disjoint(l),
        crate::utils::ranges_wf(l),
    ensures
        a == b,
{
    if a != b {
        assert(l[a].has(l[a].start.0 as int));
        assert(l[b].start == l[a].start);
        assert(l[b].has(l[a].start.0 as int));
    }
}


/// Retransmission priority: when the loss list was empty and a loss report `r`
/// arrives, the sequence numbers up for retransmission are exactly those of `r`,
/// so the next `pop` (which resends a stored fragment under the loss list whenever
/// there is one) resends a fragment of `r` whenever the send buffer holds one.
pub proof fn lemma_loss_then_pop(before: BackerView, r: SequenceRange, after: BackerView)
    requires
        before.loss.len() == 0,
        after.data == before.data,
        forall|x: int| #[trigger] covered(after.loss, x) == (covered(before.loss, x) || r.has(x)),
    ensures
        forall|x: int| #[trigger] covered(after.loss, x) == r.has(x),
        has_retransmission(after) <==> exists|k: int|
            0 <= k < after.data.blocks.len() && r.has(#[trigger] after.data.blocks[k].packet.seq_no.0 as int),
{
    assert forall|x: int| #[trigger] covered(after.loss, x) == r.has(x) by {
        assert(!covered(before.loss, x));
    }
    if has_retransmission(after) {
        let k = choose|k: int| 0 <= k < after.data.blocks.len() && covered(after.loss, #[trigger] after.data.blocks[k].packet.seq_no.0 as int);
        assert(r.has(after.data.blocks[k].packet.seq_no.0 as int));
    }
    if exists|k: int| 0 <= k < after.data.blocks.len() && r.has(#[trigger] after.data.blocks[k].packet.seq_no.0 as int) {
        let k = choose|k: int| 0 <= k < after.data.blocks.len() && r.has(#[trigger] after.data.blocks[k].packet.seq_no.0 as int);
        assert(covered(after.loss, after.data.blocks[k].packet.seq_no.0 as int));
    }
}

} // verus!
