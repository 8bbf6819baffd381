use vstd::prelude::*;

verus! {

/// Size of the sequence-number space (15 bits).
pub const SEQ_SPACE: u32 = 0x8000;

/// Size of the message-number space (13 bits).
pub const MSG_SPACE: u32 = 0x2000;

/// Forward distance from `a` to `b` on the 15-bit circle.
pub open spec fn seq_off(a: int, b: int) -> int {
    if a <= b {
        b - a
    } else {
        b - a + 0x8000
    }
}

/// Circular order on sequence numbers: `a` comes strictly before `b`.
pub open spec fn seq_before(a: int, b: int) -> bool {
    0 < seq_off(a, b) < 0x4000
}

/// `(a - b) mod 2^15`.
pub open spec fn seq_diff(a: int, b: int) -> int {
    (a - b) % 0x8000
}

/// A 15-bit wrapping sequence number.
#[derive(Copy, Clone, Debug, PartialEq, Eq, Structural, Hash)]
pub struct SequenceNumber(pub u16);

/// A 13-bit wrapping message number.
#[derive(Copy, Clone, Debug, PartialEq, Eq, Structural, Hash)]
pub struct MessageNumber(pub u16);

impl SequenceNumber {
    pub open spec fn wf(self) -> bool {
        self.0 < 0x8000
    }

    pub open spec fn val(self) -> int {
        self.0 as int
    }

    pub fn new(base: u16) -> (r: Self)
        ensures
            r.0 == base % 0x8000,
            r.wf(),
    {
        SequenceNumber(base % 0x8000)
    }

    pub fn inc(&mut self)
        ensures
            final(self).0 == (old(self).0 + 1) % 0x8000,
            final(self).wf(),
    {
        let v: u32 = self.0 as u32 + 1;
        self.0 = (v % SEQ_SPACE) as u16;
    }

    pub fn dec(&mut self)
        ensures
            final(self).0 == (old(self).0 + 0xffff) % 0x8000,
            old(self).wf() ==> final(self).0 == seq_diff(old(self).0 as int, 1),
            final(self).wf(),
    {
        let v: u32 = self.0 as u32 + 0xffff;
        self.0 = (v % SEQ_SPACE) as u16;
    }

    /// `(self - other) mod 2^15`.
    pub fn diff(&self, other: Self) -> (r: u16)
        ensures
            r as int == seq_diff(self.0 as int, other.0 as int),
    {
        let v: u32 = self.0 as u32 + 0x10000 - other.0 as u32;
        proof {
            assert((self.0 as int + 0x10000 - other.0 as int) % 0x8000 == (self.0 as int
                - other.0 as int) % 0x8000);
        }
        (v % SEQ_SPACE) as u16
    }

    /// Number of sequence numbers in the closed circular interval `[self, other]`.
    pub fn length(&self, other: &Self) -> (r: u16)
        requires
            self.wf(),
            other.wf(),
        ensures
            r as int == seq_diff(other.0 as int, self.0 as int) + 1,
            r as int == seq_off(self.0 as int, other.0 as int) + 1,
    {
        if self.0 <= other.0 {
            other.0 - self.0 + 1
        } else {
            proof {
                assert((other.0 as int - self.0 as int) % 0x8000 == other.0 as int - self.0 as int
                    + 0x8000);
            }
            0x8000 - self.0 + other.0 + 1
        }
    }

    /// True for the sequence numbers whose low nibble is 0.
    pub fn probe_start(&self) -> (r: bool)
        ensures
            r == (self.0 % 16 == 0),
    {
        self.0 % 16 == 0
    }

    /// True for the sequence numbers whose low nibble is 1.
    pub fn probe_stop(&self) -> (r: bool)
        ensures
            r == (self.0 % 16 == 1),
    {
        self.0 % 16 == 1
    }

    /// Circular comparison: `self` comes strictly before `other`.
    pub fn before(&self, other: &Self) -> (r: bool)
        requires
            self.wf(),
            other.wf(),
        ensures
            r == seq_before(self.0 as int, other.0 as int),
    {
        let d: u16 = if self.0 <= other.0 {
            other.0 - self.0
        } else {
            0x8000 - self.0 + other.0
        };
        0 < d && d < 0x4000
    }
}

/// The `diff` of a sequence number with itself is zero.
pub proof fn lemma_diff_reflexive(a: SequenceNumber)
    ensures
        seq_diff(a.0 as int, a.0 as int) == 0,
{
}

impl MessageNumber {
    pub open spec fn wf(self) -> bool {
        self.0 < 0x2000
    }

    pub fn new(base: u16) -> (r: Self)
        ensures
            r.0 == base % 0x2000,
            r.wf(),
    {
        MessageNumber(base % 0x2000)
    }

    pub fn inc(&mut self)
        ensures
            final(self).0 == (old(self).0 + 1) % 0x2000,
            final(self).wf(),
    {
        let v: u32 = self.0 as u32 + 1;
        self.0 = (v % MSG_SPACE) as u16;
    }

    pub fn dec(&mut self)
        ensures
            final(self).0 == (old(self).0 + 0xffff) % 0x2000,
            final(self).wf(),
    {
        let v: u32 = self.0 as u32 + 0xffff;
        self.0 = (v % MSG_SPACE) as u16;
    }

    pub fn add(&mut self, other: u16)
        ensures
            final(self).0 == (old(self).0 + other) % 0x2000,
            final(self).wf(),
    {
        let v: u32 = self.0 as u32 + other as u32;
        self.0 = (v % MSG_SPACE) as u16;
    }

    /// Number of message numbers in the closed circular interval `[self, other]`.
    pub fn length(&self, other: &Self) -> (r: u16)
        requires
            self.wf(),
            other.wf(),
        ensures
            r as int == (other.0 as int - self.0 as int) % 0x2000 + 1,
    {
        if self.0 <= other.0 {
            other.0 - self.0 + 1
        } else {
            proof {
                assert((other.0 as int - self.0 as int) % 0x2000 == other.0 as int - self.0 as int
                    + 0x2000);
            }
            0x2000 - self.0 + other.0 + 1
        }
    }
}


/// Membership in the closed circular interval `[s, e]`.
pub open spec fn in_arc(s: int, e: int, n: int) -> bool {
    seq_off(s, n) <= seq_off(s, e)
}

/// A closed interval `[start, stop]` on the sequence-number circle.
#[derive(Copy, Clone, Debug, PartialEq, Eq, Structural)]
pub struct SequenceRange {
    pub start: SequenceNumber,
    pub stop: SequenceNumber,
}

/// Each range of `rs` is well formed.
pub open spec fn ranges_wf(rs: Seq<SequenceRange>) -> bool {
    forall|i: int| 0 <= i < rs.len() ==> (#[trigger] rs[i]).wf()
}

/// Some range of `rs` holds `n`.
pub open spec fn covered(rs: Seq<SequenceRange>, n: int) -> bool {
    exists|i: int| 0 <= i < rs.len() && (#[trigger] rs[i]).has(n)
}

/// No sequence number lies in two ranges of `rs`.
pub open spec fn ranges_disjoint(rs: Seq<SequenceRange>) -> bool {
    forall|i: int, j: int, n: int|
        0 <= i < rs.len() && 0 <= j < rs.len() && i != j && #[trigger] rs[i].has(n) ==> !#[trigger] rs[j].has(n)
}

/// Forward distance on the circle, computed.
pub fn seq_offset(a: u16, b: u16) -> (r: u16)
    requires
        a < 0x8000,
        b < 0x8000,
    ensures
        r as int == seq_off(a as int, b as int),
        r < 0x8000,
{
    if a <= b {
        b - a
    } else {
        0x8000 - a + b
    }
}

impl SequenceRange {
    pub open spec fn wf(self) -> bool {
        self.start.wf() && self.stop.wf()
    }

    /// The range holds `n`.
    pub open spec fn has(self, n: int) -> bool {
        0 <= n < 0x8000 && in_arc(self.start.0 as int, self.stop.0 as int, n)
    }

    /// The two ranges share a sequence number.
    pub open spec fn meets(self, other: SequenceRange) -> bool {
        self.has(other.start.0 as int) || other.has(self.start.0 as int)
    }

    pub proof fn lemma_meet(self, other: SequenceRange, n: int)
        requires
            self.wf(),
            other.wf(),
            self.has(n),
            other.has(n),
        ensures
            self.meets(other),
    {
    }

    /// The range holds `number` (closed on both ends, circular).
    pub fn contains(&self, number: SequenceNumber) -> (r: bool)
        requires
            self.wf(),
            number.wf(),
        ensures
            r == self.has(number.0 as int),
    {
        seq_offset(self.start.0, number.0) <= seq_offset(self.start.0, self.stop.0)
    }

    /// The two ranges share a sequence number.
    pub fn overlaps(&self, other: SequenceRange) -> (r: bool)
        requires
            self.wf(),
            other.wf(),
        ensures
            r == self.meets(other),
            r == exists|n: int| self.has(n) && other.has(n),
    {
        proof {
            if exists|n: int| self.has(n) && other.has(n) {
                let n = choose|n: int| self.has(n) && other.has(n);
                self.lemma_meet(other, n);
            }
            if self.has(other.start.0 as int) {
                assert(other.has(other.start.0 as int));
            }
            if other.has(self.start.0 as int) {
                assert(self.has(self.start.0 as int));
            }
        }
        self.contains(other.start) || other.contains(self.start)
    }

    /// Merges `insert_range` into the disjoint ranges `ranges`: every range that
    /// meets it is absorbed into one range, the others are kept as they are.
    pub fn combine_sequences(insert_range: SequenceRange, ranges: Vec<SequenceRange>) -> (r: Vec<
        SequenceRange,
    >)
        requires
            insert_range.wf(),
            ranges_wf(ranges@),
            ranges_disjoint(ranges@),
        ensures
            ranges_wf(r@),
            ranges_disjoint(r@),
            r@.len() <= ranges@.len() + 1,
            forall|n: int|
                #[trigger] covered(r@, n) == (covered(ranges@, n) || insert_range.has(n)),
    {
        let s = insert_range.start.0;
        let mut back: u16 = 0;
        let mut fwd: u16 = seq_offset(s, insert_range.stop.0);
        let mut safe: Vec<SequenceRange> = Vec::new();
        let ghost mut idx: Seq<int> = Seq::empty();
        let mut i: usize = 0;
        while i < ranges.len()
            invariant
                0 <= i <= ranges@.len(),
                insert_range.wf(),
                ranges_wf(ranges@),
                ranges_disjoint(ranges@),
                s == insert_range.start.0,
                back < 0x8000,
                fwd < 0x8000,
                fwd >= seq_off(s as int, insert_range.stop.0 as int),
                safe@.len() == idx.len(),
                idx.len() <= i,
                forall|t: int|
                    0 <= t < idx.len() ==> 0 <= #[trigger] idx[t] < i && safe@[t] == ranges@[idx[t]]
                        && !ranges@[idx[t]].meets(insert_range),
                forall|t1: int, t2: int| 0 <= t1 < t2 < idx.len() ==> idx[t1] < idx[t2],
                forall|k: int|
                    0 <= k < i && !(#[trigger] ranges@[k]).meets(insert_range) ==> exists|t: int|
                        0 <= t < idx.len() && idx[t] == k,
                forall|n: int|
                    0 <= n < 0x8000 ==> (#[trigger] ext_has(s as int, back as int, fwd as int, n)
                        == (insert_range.has(n) || absorbed(ranges@, insert_range, i as int, n))),
            decreases ranges@.len() - i,
        {
            let a = ranges[i];
            let ghost ii = i as int;
            proof {
                assert(a == ranges@[ii]);
            }
            if a.contains(insert_range.start) {
                let b = seq_offset(a.start.0, s);
                let f = seq_offset(s, a.stop.0);
                proof {
                    let nb: int = if b > back { b as int } else { back as int };
                    let nf: int = if f > fwd { f as int } else { fwd as int };
                    assert forall|n: int| 0 <= n < 0x8000 implies #[trigger] ext_has(
                        s as int,
                        nb,
                        nf,
                        n,
                    ) == (insert_range.has(n) || absorbed(ranges@, insert_range, ii + 1, n)) by {
                        lemma_absorbed_step(ranges@, insert_range, ii, n);
                        assert(ext_has(s as int, back as int, fwd as int, n) == (insert_range.has(n)
                            || absorbed(ranges@, insert_range, ii, n)));
                        assert(a.has(n) == ext_has(s as int, b as int, f as int, n));
                    }
                    assert(a.meets(insert_range));
                }
                if b > back {
                    back = b;
                }
                if f > fwd {
                    fwd = f;
                }
            } else if insert_range.contains(a.start) {
                let f = seq_offset(s, a.stop.0);
                proof {
                    let nf: int = if f > fwd { f as int } else { fwd as int };
                    assert forall|n: int| 0 <= n < 0x8000 implies #[trigger] ext_has(
                        s as int,
                        back as int,
                        nf,
                        n,
                    ) == (insert_range.has(n) || absorbed(ranges@, insert_range, ii + 1, n)) by {
                        lemma_absorbed_step(ranges@, insert_range, ii, n);
                        assert(ext_has(s as int, back as int, fwd as int, n) == (insert_range.has(n)
                            || absorbed(ranges@, insert_range, ii, n)));
                        assert(a.has(n) == (seq_off(s as int, a.start.0 as int) <= seq_off(
                            s as int,
                            n,
                        ) <= f));
                    }
                    assert(a.meets(insert_range));
                }
                if f > fwd {
                    fwd = f;
                }
            } else {
                proof {
                    assert(!a.meets(insert_range));
                    assert forall|n: int| 0 <= n < 0x8000 implies #[trigger] ext_has(
                        s as int,
                        back as int,
                        fwd as int,
                        n,
                    ) == (insert_range.has(n) || absorbed(ranges@, insert_range, ii + 1, n)) by {
                        lemma_absorbed_step(ranges@, insert_range, ii, n);
                    }
                    let old_idx = idx;
                    idx = idx.push(ii);
                    assert forall|k: int|
                        0 <= k < ii + 1 && !(#[trigger] ranges@[k]).meets(insert_range) implies exists|t: int|
                        0 <= t < idx.len() && idx[t] == k by {
                        if k == ii {
                            assert(idx[idx.len() - 1] == k);
                        } else {
                            let t = choose|t: int| 0 <= t < old_idx.len() && old_idx[t] == k;
                            assert(idx[t] == k);
                        }
                    }
                }
                safe.push(a);
            }
            i = i + 1;
        }
        let merged = if back as u32 + fwd as u32 >= 0x7fff {
            let mut stop = insert_range.start;
            stop.dec();
            SequenceRange { start: insert_range.start, stop }
        } else {
            let start = SequenceNumber(((s as u32 + 0x8000 - back as u32) % SEQ_SPACE) as u16);
            let stop = SequenceNumber(((s as u32 + fwd as u32) % SEQ_SPACE) as u16);
            SequenceRange { start, stop }
        };
        proof {
            assert forall|n: int| 0 <= n < 0x8000 implies #[trigger] merged.has(n) == ext_has(
                s as int,
                back as int,
                fwd as int,
                n,
            ) by {
                lemma_ext_arc(s as int, back as int, fwd as int, merged, n);
            }
        }
        let ghost safe_before = safe@;
        safe.push(merged);
        proof {
            let rs = ranges@;
            let out = safe@;
            assert(out.len() == idx.len() + 1);
            assert forall|t: int| 0 <= t < out.len() implies (#[trigger] out[t]).wf() by {
                if t < idx.len() {
                    assert(out[t] == rs[idx[t]]);
                }
            }
            assert forall|n: int| #[trigger] covered(out, n) == (covered(rs, n) || insert_range.has(n)) by {
                if covered(out, n) {
                    let t = choose|t: int| 0 <= t < out.len() && (#[trigger] out[t]).has(n);
                    if t < idx.len() {
                        assert(out[t] == rs[idx[t]]);
                        assert(rs[idx[t]].has(n));
                    } else {
                        assert(merged.has(n));
                        if !insert_range.has(n) {
                            let k = choose|k: int| 0 <= k < rs.len() && (#[trigger] rs[k]).meets(insert_range) && rs[k].has(n);
                            assert(rs[k].has(n));
                        }
                    }
                }
                if insert_range.has(n) {
                    assert(merged.has(n));
                    assert(out[out.len() - 1].has(n));
                }
                if covered(rs, n) {
                    let k = choose|k: int| 0 <= k < rs.len() && (#[trigger] rs[k]).has(n);
                    if rs[k].meets(insert_range) {
                        assert(absorbed(rs, insert_range, rs.len() as int, n));
                        assert(merged.has(n));
                        assert(out[out.len() - 1].has(n));
                    } else {
                        let t = choose|t: int| 0 <= t < idx.len() && idx[t] == k;
                        assert(out[t] == rs[k]);
                        assert(out[t].has(n));
                    }
                }
            }
            assert forall|t1: int, t2: int, n: int|
                0 <= t1 < out.len() && 0 <= t2 < out.len() && t1 != t2 && #[trigger] out[t1].has(n) implies !#[trigger] out[t2].has(n) by {
                if t1 < idx.len() && t2 < idx.len() {
                    if t1 < t2 {
                        assert(idx[t1] < idx[t2]);
                    } else {
                        assert(idx[t2] < idx[t1]);
                    }
                    assert(out[t1] == rs[idx[t1]]);
                    assert(out[t2] == rs[idx[t2]]);
                } else if t1 < idx.len() {
                    let a = rs[idx[t1]];
                    assert(out[t1] == a);
                    if out[t2].has(n) {
                        assert(merged.has(n));
                        if insert_range.has(n) {
                            a.lemma_meet(insert_range, n);
                        } else {
                            let k = choose|k: int| 0 <= k < rs.len() && (#[trigger] rs[k]).meets(insert_range) && rs[k].has(n);
                            assert(rs[k].has(n));
                            assert(k != idx[t1]);
                        }
                    }
                } else {
                    let a = rs[idx[t2]];
                    assert(out[t2] == a);
                    assert(merged.has(n));
                    if a.has(n) {
                        if insert_range.has(n) {
                            a.lemma_meet(insert_range, n);
                        } else {
                            let k = choose|k: int| 0 <= k < rs.len() && (#[trigger] rs[k]).meets(insert_range) && rs[k].has(n);
                            assert(rs[k].has(n));
                            assert(k != idx[t2]);
                        }
                    }
                }
            }
        }
        safe
    }
}

/// `n` lies in a range of `rs` below index `i` that meets `ins`.
pub open spec fn absorbed(rs: Seq<SequenceRange>, ins: SequenceRange, i: int, n: int) -> bool {
    exists|k: int| 0 <= k < i && (#[trigger] rs[k]).meets(ins) && rs[k].has(n)
}

/// The stretch from `back` steps before `s` to `fwd` steps after it holds `n`.
pub open spec fn ext_has(s: int, back: int, fwd: int, n: int) -> bool {
    seq_off(s, n) <= fwd || 0x8000 - back <= seq_off(s, n)
}

proof fn lemma_absorbed_step(rs: Seq<SequenceRange>, ins: SequenceRange, i: int, n: int)
    requires
        0 <= i < rs.len(),
    ensures
        absorbed(rs, ins, i + 1, n) == (absorbed(rs, ins, i, n) || (rs[i].meets(ins) && rs[i].has(
            n,
        ))),
{
    if absorbed(rs, ins, i + 1, n) {
        let k = choose|k: int| 0 <= k < i + 1 && (#[trigger] rs[k]).meets(ins) && rs[k].has(n);
        if k < i {
            assert(absorbed(rs, ins, i, n));
        }
    }
    if absorbed(rs, ins, i, n) {
        let k = choose|k: int| 0 <= k < i && (#[trigger] rs[k]).meets(ins) && rs[k].has(n);
        assert(absorbed(rs, ins, i + 1, n));
    }
    if rs[i].meets(ins) && rs[i].has(n) {
        assert(absorbed(rs, ins, i + 1, n));
    }
}

proof fn lemma_ext_arc(s: int, back: int, fwd: int, m: SequenceRange, n: int)
    requires
        0 <= s < 0x8000,
        0 <= back < 0x8000,
        0 <= fwd < 0x8000,
        0 <= n < 0x8000,
        back + fwd >= 0x7fff ==> m.start.0 == s && m.stop.0 == (s + 0xffff) % 0x8000,
        back + fwd < 0x7fff ==> m.start.0 == (s + 0x8000 - back) % 0x8000 && m.stop.0 == (s
            + fwd) % 0x8000,
    ensures
        m.has(n) == ext_has(s, back, fwd, n),
{
}


/// The integer hash used to spread decrease decisions.
pub open spec fn mix_hash(value: u64) -> u64 {
    let state = value.wrapping_mul(747796405).wrapping_add(2891336453);
    let shift = ((state >> 28u64).wrapping_add(4)) & 63;
    let word = ((state >> shift) ^ state).wrapping_mul(277803737);
    (word >> 22u64) ^ word
}

/// A permuted congruential hash of `value` (64-bit arithmetic).
pub fn hash(value: u64) -> (r: u64)
    ensures
        r == mix_hash(value),
{
    let state = value.wrapping_mul(747796405).wrapping_add(2891336453);
    let t = (state >> 28u64).wrapping_add(4);
    let shift = t & 63;
    assert(shift < 64) by (bit_vector)
        requires
            shift == t & 63,
    ;
    let mixed = (state >> shift) ^ state;
    let word = mixed.wrapping_mul(277803737);
    (word >> 22u64) ^ word
}

} // verus!
