use vstd::prelude::*;
use crate::utils::{
    covered, ranges_disjoint, ranges_wf, seq_before, seq_off, seq_offset, SequenceNumber,
    SequenceRange,
};

verus! {

/// The part of `a` that remains once everything before `p` is confirmed.
pub open spec fn confirm_piece(a: SequenceRange, p: SequenceNumber) -> Seq<SequenceRange> {
    if a.has(p.0 as int) {
        seq![SequenceRange { start: p, stop: a.stop }]
    } else if seq_before(a.start.0 as int, p.0 as int) {
        Seq::empty()
    } else {
        seq![a]
    }
}

/// Ranges of `rs`, each trimmed by `confirm_piece`, in order.
pub open spec fn confirm_all(rs: Seq<SequenceRange>, p: SequenceNumber) -> Seq<SequenceRange>
    decreases rs.len(),
{
    if rs.len() == 0 {
        Seq::empty()
    } else {
        confirm_all(rs.drop_last(), p) + confirm_piece(rs.last(), p)
    }
}

/// The set of sequence numbers believed lost, held as disjoint ranges.
#[derive(Debug)]
pub struct LossBuffer {
    lost_ranges: Vec<SequenceRange>,
}

impl View for LossBuffer {
    type V = Seq<SequenceRange>;

    closed spec fn view(&self) -> Seq<SequenceRange> {
        self.lost_ranges@
    }
}

impl LossBuffer {
    pub open spec fn wf(&self) -> bool {
        ranges_wf(self@) && ranges_disjoint(self@)
    }

    pub fn new() -> (r: Self)
        ensures
            r.wf(),
            r@.len() == 0,
    {
        LossBuffer { lost_ranges: Vec::new() }
    }

    /// Adds `insert_range`, merging it with every range it meets.
    pub fn insert(&mut self, insert_range: SequenceRange)
        requires
            old(self).wf(),
            insert_range.wf(),
        ensures
            final(self).wf(),
            final(self)@.len() <= old(self)@.len() + 1,
            forall|n: int|
                #[trigger] covered(final(self)@, n) == (covered(old(self)@, n) || insert_range.has(n)),
    {
        let mut ranges: Vec<SequenceRange> = Vec::new();
        std::mem::swap(&mut ranges, &mut self.lost_ranges);
        self.lost_ranges = SequenceRange::combine_sequences(insert_range, ranges);
    }

    /// Removes one sequence number, splitting the range that held it.
    pub fn remove(&mut self, number: SequenceNumber)
        requires
            old(self).wf(),
            number.wf(),
        ensures
            final(self).wf(),
            forall|n: int|
                #[trigger] covered(final(self)@, n) == (covered(old(self)@, n) && n != number.0),
            final(self)@.len() <= old(self)@.len() + 1,
    {
        let p = number.0;
        let mut out: Vec<SequenceRange> = Vec::new();
        let mut i: usize = 0;
        let ghost rs = self.lost_ranges@;
        while i < self.lost_ranges.len()
            invariant
                rs == self.lost_ranges@,
                ranges_wf(rs),
                ranges_disjoint(rs),
                number.wf(),
                p == number.0,
                0 <= i <= rs.len(),
                ranges_wf(out@),
                ranges_disjoint(out@),
                forall|t: int, n: int|
                    0 <= t < out@.len() && #[trigger] out@[t].has(n) ==> covered(rs.take(i as int), n),
                forall|n: int|
                    #[trigger] covered(out@, n) == (covered(rs.take(i as int), n) && n != p),
                out@.len() <= i + (if covered(rs.take(i as int), p as int) { 1int } else { 0int }),
            decreases rs.len() - i,
        {
            let a = self.lost_ranges[i];
            let ghost ii = i as int;
            let ghost before = out@;
            proof {
                assert(a == rs[ii]);
                assert forall|n: int| #[trigger] covered(rs.take(ii + 1), n) == (covered(rs.take(ii), n) || a.has(n)) by {
                    if covered(rs.take(ii + 1), n) {
                        let k = choose|k: int| 0 <= k < ii + 1 && (#[trigger] rs.take(ii + 1)[k]).has(n);
                        if k < ii {
                            assert(rs.take(ii)[k] == rs.take(ii + 1)[k]);
                        }
                    }
                    if covered(rs.take(ii), n) {
                        let k = choose|k: int| 0 <= k < ii && (#[trigger] rs.take(ii)[k]).has(n);
                        assert(rs.take(ii + 1)[k] == rs.take(ii)[k]);
                    }
                    if a.has(n) {
                        assert(rs.take(ii + 1)[ii] == a);
                    }
                }
                // a is disjoint from what came before
                assert forall|n: int| a.has(n) implies !covered(rs.take(ii), n) by {
                    if covered(rs.take(ii), n) {
                        let k = choose|k: int| 0 <= k < ii && (#[trigger] rs.take(ii)[k]).has(n);
                        assert(rs.take(ii)[k] == rs[k]);
                        assert(rs[k].has(n));
                    }
                }
            }
            if a.contains(number) {
                let ghost sa = a.start.0 as int;
                let ghost pa = seq_off(sa, p as int);
                let ghost la = seq_off(sa, a.stop.0 as int);
                if a.start.0 != p {
                    let mut lower = number;
                    lower.dec();
                    let piece = SequenceRange { start: a.start, stop: lower };
                    proof {
                        assert forall|n: int| piece.has(n) == (a.has(n) && 0 <= n < 0x8000 && seq_off(sa, n) < pa) by {}
                        assert forall|t: int, n: int|
                            0 <= t < out@.len() && #[trigger] out@[t].has(n) implies !piece.has(n) by {
                            assert(covered(rs.take(ii), n));
                        }
                    }
                    out.push(piece);
                    proof {
                        let o = out@;
                        assert forall|t: int, n: int|
                            0 <= t < o.len() && #[trigger] o[t].has(n) implies covered(rs.take(ii + 1), n) by {
                            if t < before.len() {
                                assert(o[t] == before[t]);
                            }
                        }
                        assert forall|t1: int, t2: int, n: int|
                            0 <= t1 < o.len() && 0 <= t2 < o.len() && t1 != t2 && #[trigger] o[t1].has(n) implies !#[trigger] o[t2].has(n) by {
                            if t1 < before.len() && t2 < before.len() {
                                assert(o[t1] == before[t1]);
                                assert(o[t2] == before[t2]);
                            } else if t1 < before.len() {
                                assert(o[t1] == before[t1]);
                            } else {
                                assert(o[t2] == before[t2]);
                            }
                        }
                        assert forall|t: int| 0 <= t < o.len() implies (#[trigger] o[t]).wf() by {
                            if t < before.len() {
                                assert(o[t] == before[t]);
                            }
                        }
                    }
                }
                let ghost mid = out@;
                if a.stop.0 != p {
                    let mut upper = number;
                    upper.inc();
                    let piece = SequenceRange { start: upper, stop: a.stop };
                    proof {
                        assert forall|n: int| piece.has(n) == (a.has(n) && 0 <= n < 0x8000 && seq_off(sa, n) > pa) by {}
                        assert forall|t: int, n: int|
                            0 <= t < mid.len() && #[trigger] mid[t].has(n) implies !piece.has(n) by {
                            if t < before.len() {
                                assert(covered(rs.take(ii), n));
                            }
                        }
                    }
                    out.push(piece);
                    proof {
                        let o = out@;
                        assert forall|t: int, n: int|
                            0 <= t < o.len() && #[trigger] o[t].has(n) implies covered(rs.take(ii + 1), n) by {
                            if t < mid.len() {
                                assert(o[t] == mid[t]);
                            }
                        }
                        assert forall|t1: int, t2: int, n: int|
                            0 <= t1 < o.len() && 0 <= t2 < o.len() && t1 != t2 && #[trigger] o[t1].has(n) implies !#[trigger] o[t2].has(n) by {
                            if t1 < mid.len() && t2 < mid.len() {
                                assert(o[t1] == mid[t1]);
                                assert(o[t2] == mid[t2]);
                            } else if t1 < mid.len() {
                                assert(o[t1] == mid[t1]);
                            } else {
                                assert(o[t2] == mid[t2]);
                            }
                        }
                        assert forall|t: int| 0 <= t < o.len() implies (#[trigger] o[t]).wf() by {
                            if t < mid.len() {
                                assert(o[t] == mid[t]);
                            }
                        }
                    }
                }
                proof {
                    let o = out@;
                    assert forall|n: int| #[trigger] covered(o, n) == (covered(rs.take(ii + 1), n) && n != p) by {
                        if covered(o, n) {
                            let t = choose|t: int| 0 <= t < o.len() && (#[trigger] o[t]).has(n);
                            if t < before.len() {
                                assert(o[t] == before[t]);
                                assert(covered(before, n));
                            }
                        }
                        if covered(rs.take(ii + 1), n) && n != p {
                            if covered(rs.take(ii), n) {
                                assert(covered(before, n));
                                let t = choose|t: int| 0 <= t < before.len() && (#[trigger] before[t]).has(n);
                                assert(o[t] == before[t]);
                            } else {
                                assert(a.has(n));
                                if seq_off(sa, n) < pa {
                                    assert(o[before.len() as int].has(n));
                                } else {
                                    assert(o[o.len() - 1].has(n));
                                }
                            }
                        }
                    }
                }
            } else {
                out.push(a);
                proof {
                    let o = out@;
                    assert forall|t: int, n: int|
                        0 <= t < o.len() && #[trigger] o[t].has(n) implies covered(rs.take(ii + 1), n) by {
                        if t < before.len() {
                            assert(o[t] == before[t]);
                        }
                    }
                    assert forall|t1: int, t2: int, n: int|
                        0 <= t1 < o.len() && 0 <= t2 < o.len() && t1 != t2 && #[trigger] o[t1].has(n) implies !#[trigger] o[t2].has(n) by {
                        if t1 < before.len() && t2 < before.len() {
                            assert(o[t1] == before[t1]);
                            assert(o[t2] == before[t2]);
                        } else if t1 < before.len() {
                            assert(o[t1] == before[t1]);
                        } else {
                            assert(o[t2] == before[t2]);
                        }
                    }
                    assert forall|t: int| 0 <= t < o.len() implies (#[trigger] o[t]).wf() by {
                        if t < before.len() {
                            assert(o[t] == before[t]);
                        }
                    }
                    assert forall|n: int| #[trigger] covered(o, n) == (covered(rs.take(ii + 1), n) && n != p) by {
                        if covered(o, n) {
                            let t = choose|t: int| 0 <= t < o.len() && (#[trigger] o[t]).has(n);
                            if t < before.len() {
                                assert(o[t] == before[t]);
                                assert(covered(before, n));
                            }
                        }
                        if covered(rs.take(ii + 1), n) && n != p {
                            if covered(rs.take(ii), n) {
                                assert(covered(before, n));
                                let t = choose|t: int| 0 <= t < before.len() && (#[trigger] before[t]).has(n);
                                assert(o[t] == before[t]);
                            } else {
                                assert(o[o.len() - 1].has(n));
                            }
                        }
                    }
                }
            }
            i = i + 1;
        }
        proof {
            assert(rs.take(rs.len() as int) =~= rs);
        }
        self.lost_ranges = out;
    }

    /// Drops every range that lies before `confirmed` and raises the start of the
    /// range that holds it to `confirmed`.
    pub fn remove_confirmed(&mut self, confirmed: SequenceNumber)
        requires
            old(self).wf(),
            confirmed.wf(),
        ensures
            final(self)@ == confirm_all(old(self)@, confirmed),
            final(self).wf(),
            forall|n: int| covered(final(self)@, n) ==> covered(old(self)@, n),
    {
        let mut out: Vec<SequenceRange> = Vec::new();
        let mut i: usize = 0;
        let ghost rs = self.lost_ranges@;
        while i < self.lost_ranges.len()
            invariant
                rs == self.lost_ranges@,
                ranges_wf(rs),
                ranges_disjoint(rs),
                confirmed.wf(),
                0 <= i <= rs.len(),
                out@ == confirm_all(rs.take(i as int), confirmed),
                ranges_wf(out@),
                ranges_disjoint(out@),
                forall|t: int, n: int|
                    0 <= t < out@.len() && #[trigger] out@[t].has(n) ==> covered(rs.take(i as int), n),
            decreases rs.len() - i,
        {
            let a = self.lost_ranges[i];
            let ghost ii = i as int;
            let ghost before = out@;
            proof {
                assert(a == rs[ii]);
                assert(rs.take(ii + 1).drop_last() =~= rs.take(ii));
                assert(rs.take(ii + 1).last() == a);
                assert forall|n: int| a.has(n) implies !covered(rs.take(ii), n) by {
                    if covered(rs.take(ii), n) {
                        let k = choose|k: int| 0 <= k < ii && (#[trigger] rs.take(ii)[k]).has(n);
                        assert(rs.take(ii)[k] == rs[k]);
                        assert(rs[k].has(n));
                    }
                }
                assert forall|n: int| covered(rs.take(ii), n) implies covered(rs.take(ii + 1), n) by {
                    let k = choose|k: int| 0 <= k < ii && (#[trigger] rs.take(ii)[k]).has(n);
                    assert(rs.take(ii + 1)[k] == rs.take(ii)[k]);
                }
                assert forall|n: int| a.has(n) implies covered(rs.take(ii + 1), n) by {
                    assert(rs.take(ii + 1)[ii] == a);
                }
            }
            let keep = if a.contains(confirmed) {
                Some(SequenceRange { start: confirmed, stop: a.stop })
            } else if a.start.before(&confirmed) {
                None
            } else {
                Some(a)
            };
            match keep {
                Some(piece) => {
                    proof {
                        assert(forall|n: int| piece.has(n) ==> a.has(n));
                    }
                    out.push(piece);
                    proof {
                        let o = out@;
                        assert(o =~= before + seq![piece]);
                        assert forall|t: int, n: int|
                            0 <= t < o.len() && #[trigger] o[t].has(n) implies covered(rs.take(ii + 1), n) by {
                            if t < before.len() {
                                assert(o[t] == before[t]);
                            }
                        }
                        assert forall|t1: int, t2: int, n: int|
                            0 <= t1 < o.len() && 0 <= t2 < o.len() && t1 != t2 && #[trigger] o[t1].has(n) implies !#[trigger] o[t2].has(n) by {
                            if t1 < before.len() && t2 < before.len() {
                                assert(o[t1] == before[t1]);
                                assert(o[t2] == before[t2]);
                            } else if t1 < before.len() {
                                assert(o[t1] == before[t1]);
                            } else {
                                assert(o[t2] == before[t2]);
                            }
                        }
                        assert forall|t: int| 0 <= t < o.len() implies (#[trigger] o[t]).wf() by {
                            if t < before.len() {
                                assert(o[t] == before[t]);
                            }
                        }
                    }
                },
                None => {
                    proof {
                        assert(before + Seq::<SequenceRange>::empty() =~= before);
                        assert forall|t: int, n: int|
                            0 <= t < before.len() && #[trigger] before[t].has(n) implies covered(rs.take(ii + 1), n) by {}
                    }
                },
            }
            i = i + 1;
        }
        proof {
            assert(rs.take(rs.len() as int) =~= rs);
        }
        self.lost_ranges = out;
    }

    /// The parts of `a` outside `mask` (up to two ranges).
    fn cut(a: SequenceRange, mask: SequenceRange) -> (r: Vec<SequenceRange>)
        requires
            a.wf(),
            mask.wf(),
        ensures
            ranges_wf(r@),
            ranges_disjoint(r@),
            forall|n: int| #[trigger] covered(r@, n) == (a.has(n) && !mask.has(n)),
            r@.len() <= 2,
            !a.has(mask.start.0 as int) ==> r@.len() <= 1,
    {
        let s = a.start.0;
        let la = seq_offset(s, a.stop.0);
        let ms = seq_offset(s, mask.start.0);
        let me = seq_offset(s, mask.stop.0);
        let ghost sa = s as int;
        proof {
            lemma_rel(a, mask, la as int, ms as int, me as int);
        }
        let mut out: Vec<SequenceRange> = Vec::new();
        if ms <= me {
            if ms > 0 {
                let stop = if ms - 1 < la { ms - 1 } else { la };
                let p = piece(s, 0, stop);
                out.push(p);
            }
            if me < la {
                let p = piece(s, me + 1, la);
                out.push(p);
            }
            proof {
                assert forall|n: int| #[trigger] covered(out@, n) == (a.has(n) && !mask.has(n)) by {
                    if covered(out@, n) {
                        let i = choose|i: int| 0 <= i < out@.len() && (#[trigger] out@[i]).has(n);
                    }
                    if a.has(n) && !mask.has(n) {
                        if seq_off(sa, n) < ms {
                            assert(out@[0].has(n));
                        } else {
                            assert(out@[out@.len() - 1].has(n));
                        }
                    }
                }
            }
        } else {
            let hi = if ms - 1 < la { ms - 1 } else { la };
            if me < hi {
                let p = piece(s, me + 1, hi);
                out.push(p);
            }
            proof {
                assert forall|n: int| #[trigger] covered(out@, n) == (a.has(n) && !mask.has(n)) by {
                    if covered(out@, n) {
                        let i = choose|i: int| 0 <= i < out@.len() && (#[trigger] out@[i]).has(n);
                    }
                    if a.has(n) && !mask.has(n) {
                        assert(out@[0].has(n));
                    }
                }
            }
        }
        out
    }

    /// Removes every sequence number of `remove_range`, keeping the residues of the
    /// ranges it cuts.
    pub fn remove_range(&mut self, remove_range: SequenceRange)
        requires
            old(self).wf(),
            remove_range.wf(),
        ensures
            final(self).wf(),
            forall|n: int|
                #[trigger] covered(final(self)@, n) == (covered(old(self)@, n) && !remove_range.has(n)),
            final(self)@.len() <= old(self)@.len() + 1,
    {
        let mut out: Vec<SequenceRange> = Vec::new();
        let mut i: usize = 0;
        let ghost rs = self.lost_ranges@;
        while i < self.lost_ranges.len()
            invariant
                rs == self.lost_ranges@,
                ranges_wf(rs),
                ranges_disjoint(rs),
                remove_range.wf(),
                0 <= i <= rs.len(),
                ranges_wf(out@),
                ranges_disjoint(out@),
                forall|t: int, n: int|
                    0 <= t < out@.len() && #[trigger] out@[t].has(n) ==> covered(rs.take(i as int), n),
                forall|n: int|
                    #[trigger] covered(out@, n) == (covered(rs.take(i as int), n) && !remove_range.has(n)),
                out@.len() <= i + (if covered(rs.take(i as int), remove_range.start.0 as int) { 1int } else { 0int }),
            decreases rs.len() - i,
        {
            let a = self.lost_ranges[i];
            let ghost ii = i as int;
            let ghost before = out@;
            proof {
                assert(a == rs[ii]);
                assert forall|n: int| #[trigger] covered(rs.take(ii + 1), n) == (covered(rs.take(ii), n) || a.has(n)) by {
                    if covered(rs.take(ii + 1), n) {
                        let k = choose|k: int| 0 <= k < ii + 1 && (#[trigger] rs.take(ii + 1)[k]).has(n);
                        if k < ii {
                            assert(rs.take(ii)[k] == rs.take(ii + 1)[k]);
                        }
                    }
                    if covered(rs.take(ii), n) {
                        let k = choose|k: int| 0 <= k < ii && (#[trigger] rs.take(ii)[k]).has(n);
                        assert(rs.take(ii + 1)[k] == rs.take(ii)[k]);
                    }
                    if a.has(n) {
                        assert(rs.take(ii + 1)[ii] == a);
                    }
                }
                assert forall|n: int| a.has(n) implies !covered(rs.take(ii), n) by {
                    if covered(rs.take(ii), n) {
                        let k = choose|k: int| 0 <= k < ii && (#[trigger] rs.take(ii)[k]).has(n);
                        assert(rs.take(ii)[k] == rs[k]);
                        assert(rs[k].has(n));
                    }
                }
            }
            let pieces = Self::cut(a, remove_range);
            let mut j: usize = 0;
            while j < pieces.len()
                invariant
                    0 <= j <= pieces@.len(),
                    ranges_wf(pieces@),
                    ranges_disjoint(pieces@),
                    forall|n: int| #[trigger] covered(pieces@, n) == (a.has(n) && !remove_range.has(n)),
                    forall|n: int| a.has(n) ==> !covered(rs.take(ii), n),
                    out@ == before + pieces@.take(j as int),
                    ranges_wf(before),
                    ranges_disjoint(before),
                    forall|t: int, n: int|
                        0 <= t < before.len() && #[trigger] before[t].has(n) ==> covered(rs.take(ii), n),
                    ranges_wf(out@),
                    ranges_disjoint(out@),
                decreases pieces@.len() - j,
            {
                let p = pieces[j];
                let ghost o0 = out@;
                out.push(p);
                proof {
                    assert(pieces@.take(j + 1) =~= pieces@.take(j as int).push(p));
                    assert(p.wf());
                    let o = out@;
                    assert forall|n: int| p.has(n) implies a.has(n) && !covered(before, n) by {
                        assert(covered(pieces@, n));
                        if covered(before, n) {
                            let t = choose|t: int| 0 <= t < before.len() && (#[trigger] before[t]).has(n);
                        }
                    }
                    assert forall|t1: int, t2: int, n: int|
                        0 <= t1 < o.len() && 0 <= t2 < o.len() && t1 != t2 && #[trigger] o[t1].has(n) implies !#[trigger] o[t2].has(n) by {
                        if t1 < o0.len() && t2 < o0.len() {
                            assert(o[t1] == o0[t1]);
                            assert(o[t2] == o0[t2]);
                        } else {
                            let t = if t1 < o0.len() { t1 } else { t2 };
                            assert(o[t] == o0[t]);
                            if t < before.len() {
                                assert(o0[t] == before[t]);
                                if o0[t].has(n) && p.has(n) {
                                    assert(covered(before, n));
                                }
                            } else {
                                assert(o0[t] == pieces@[t - before.len()]);
                                assert(pieces@[j as int] == p);
                            }
                        }
                    }
                    assert forall|t: int| 0 <= t < o.len() implies (#[trigger] o[t]).wf() by {
                        if t < o0.len() { assert(o[t] == o0[t]); }
                    }
                }
                j = j + 1;
            }
            proof {
                assert(pieces@.take(pieces@.len() as int) =~= pieces@);
                let o = out@;
                assert forall|t: int, n: int|
                    0 <= t < o.len() && #[trigger] o[t].has(n) implies covered(rs.take(ii + 1), n) by {
                    if t < before.len() {
                        assert(o[t] == before[t]);
                    } else {
                        assert(o[t] == pieces@[t - before.len()]);
                        assert(covered(pieces@, n));
                    }
                }
                assert forall|n: int| #[trigger] covered(o, n) == (covered(rs.take(ii + 1), n) && !remove_range.has(n)) by {
                    if covered(o, n) {
                        let t = choose|t: int| 0 <= t < o.len() && (#[trigger] o[t]).has(n);
                        if t < before.len() {
                            assert(o[t] == before[t]);
                            assert(covered(before, n));
                        } else {
                            assert(o[t] == pieces@[t - before.len()]);
                            assert(covered(pieces@, n));
                        }
                    }
                    if covered(rs.take(ii + 1), n) && !remove_range.has(n) {
                        if covered(rs.take(ii), n) {
                            assert(covered(before, n));
                            let t = choose|t: int| 0 <= t < before.len() && (#[trigger] before[t]).has(n);
                            assert(o[t] == before[t]);
                        } else {
                            assert(covered(pieces@, n));
                            let t = choose|t: int| 0 <= t < pieces@.len() && (#[trigger] pieces@[t]).has(n);
                            assert(o[before.len() + t] == pieces@[t]);
                        }
                    }
                }
            }
            i = i + 1;
        }
        proof {
            assert(rs.take(rs.len() as int) =~= rs);
        }
        self.lost_ranges = out;
    }

    /// Number of ranges held.
    pub fn size(&self) -> (r: usize)
        ensures
            r == self@.len(),
    {
        self.lost_ranges.len()
    }

    /// The first held range that meets `find_range`.
    pub fn find(&self, find_range: SequenceRange) -> (r: Option<SequenceRange>)
        requires
            self.wf(),
            find_range.wf(),
        ensures
            r.is_none() <==> forall|i: int| 0 <= i < self@.len() ==> !(#[trigger] self@[i]).meets(find_range),
            r.is_some() ==> exists|i: int|
                0 <= i < self@.len() && self@[i] == r.unwrap() && (#[trigger] self@[i]).meets(find_range)
                    && forall|j: int| 0 <= j < i ==> !(#[trigger] self@[j]).meets(find_range),
    {
        let mut i: usize = 0;
        while i < self.lost_ranges.len()
            invariant
                self.wf(),
                find_range.wf(),
                0 <= i <= self@.len(),
                forall|j: int| 0 <= j < i ==> !(#[trigger] self@[j]).meets(find_range),
            decreases self@.len() - i,
        {
            let a = self.lost_ranges[i];
            proof {
                assert(self@[i as int].wf());
            }
            if a.overlaps(find_range) {
                return Some(a);
            }
            i = i + 1;
        }
        None
    }

    /// Index of the range with the lowest start.
    fn lowest(&self) -> (r: usize)
        requires
            self@.len() > 0,
        ensures
            r < self@.len(),
            forall|j: int| 0 <= j < self@.len() ==> self@[r as int].start.0 <= (#[trigger] self@[j]).start.0,
    {
        let mut best: usize = 0;
        let mut i: usize = 1;
        while i < self.lost_ranges.len()
            invariant
                0 < self@.len(),
                1 <= i <= self@.len(),
                best < i,
                forall|j: int| 0 <= j < i ==> self@[best as int].start.0 <= (#[trigger] self@[j]).start.0,
            decreases self@.len() - i,
        {
            if self.lost_ranges[i].start.0 < self.lost_ranges[best].start.0 {
                best = i;
            }
            i = i + 1;
        }
        best
    }

    /// Removes and returns the range with the lowest start.
    pub fn pop(&mut self) -> (r: Option<SequenceRange>)
        requires
            old(self).wf(),
        ensures
            final(self).wf(),
            old(self)@.len() == 0 ==> r.is_none() && final(self)@ == old(self)@,
            old(self)@.len() > 0 ==> exists|k: int|
                0 <= k < old(self)@.len() && r == Some(old(self)@[k]) && final(self)@ == old(self)@.remove(k)
                    && forall|j: int| 0 <= j < old(self)@.len() ==> old(self)@[k].start.0 <= (#[trigger] old(self)@[j]).start.0,
    {
        if self.lost_ranges.len() == 0 {
            return None;
        }
        let k = self.lowest();
        let ghost rs = self@;
        let a = self.lost_ranges.remove(k);
        proof {
            let o = self@;
            assert forall|i: int| 0 <= i < o.len() implies (#[trigger] o[i]).wf() by {
                if i < k { assert(o[i] == rs[i]); } else { assert(o[i] == rs[i + 1]); }
            }
            assert forall|i: int, j: int, n: int|
                0 <= i < o.len() && 0 <= j < o.len() && i != j && #[trigger] o[i].has(n) implies !#[trigger] o[j].has(n) by {
                let ii = if i < k { i } else { i + 1 };
                let jj = if j < k { j } else { j + 1 };
                assert(o[i] == rs[ii]);
                assert(o[j] == rs[jj]);
            }
        }
        Some(a)
    }

    /// The range with the lowest start, if any.
    pub fn first(&self) -> (r: Option<SequenceRange>)
        ensures
            self@.len() == 0 <==> r.is_none(),
            r.is_some() ==> exists|k: int|
                0 <= k < self@.len() && r == Some(self@[k])
                    && forall|j: int| 0 <= j < self@.len() ==> self@[k].start.0 <= (#[trigger] self@[j]).start.0,
    {
        if self.lost_ranges.len() == 0 {
            return None;
        }
        let k = self.lowest();
        Some(self.lost_ranges[k])
    }

    /// The leading ranges that fit, at four bytes each on the wire, in half of `mss`.
    pub fn encode(&self, mss: u16) -> (r: Vec<SequenceRange>)
        ensures
            4 * r@.len() <= mss / 2,
            r@.len() <= self@.len(),
            r@ == self@.take(r@.len() as int),
            r@.len() == self@.len() || 4 * (r@.len() + 1) > mss / 2,
    {
        let limit: usize = (mss / 2 / 4) as usize;
        let mut out: Vec<SequenceRange> = Vec::new();
        let mut i: usize = 0;
        while i < self.lost_ranges.len() && i < limit
            invariant
                0 <= i <= self@.len(),
                i <= limit,
                limit == mss / 2 / 4,
                out@ == self@.take(i as int),
            decreases self@.len() - i,
        {
            out.push(self.lost_ranges[i]);
            proof {
                assert(self@.take(i as int + 1) =~= self@.take(i as int).push(self@[i as int]));
            }
            i = i + 1;
        }
        out
    }
}


/// The range from `lo` to `hi` steps after `s`.
fn piece(s: u16, lo: u16, hi: u16) -> (r: SequenceRange)
    requires
        s < 0x8000,
        lo <= hi < 0x8000,
    ensures
        r.wf(),
        forall|n: int| #[trigger] r.has(n) == (0 <= n < 0x8000 && lo <= seq_off(s as int, n) <= hi),
{
    let r = SequenceRange {
        start: SequenceNumber(((s as u32 + lo as u32) % 0x8000) as u16),
        stop: SequenceNumber(((s as u32 + hi as u32) % 0x8000) as u16),
    };
    proof {
        assert forall|n: int| #[trigger] r.has(n) == (0 <= n < 0x8000 && lo <= seq_off(s as int, n) <= hi) by {
            lemma_piece(s as int, lo as int, hi as int, r, n);
        }
    }
    r
}

proof fn lemma_piece(s: int, lo: int, hi: int, r: SequenceRange, n: int)
    requires
        0 <= s < 0x8000,
        0 <= lo <= hi < 0x8000,
        r.start.0 == (s + lo) % 0x8000,
        r.stop.0 == (s + hi) % 0x8000,
    ensures
        r.has(n) == (0 <= n < 0x8000 && lo <= seq_off(s, n) <= hi),
{
}

proof fn lemma_rel(a: SequenceRange, mask: SequenceRange, la: int, ms: int, me: int)
    requires
        a.wf(),
        mask.wf(),
        la == seq_off(a.start.0 as int, a.stop.0 as int),
        ms == seq_off(a.start.0 as int, mask.start.0 as int),
        me == seq_off(a.start.0 as int, mask.stop.0 as int),
    ensures
        forall|n: int| #[trigger] a.has(n) == (0 <= n < 0x8000 && seq_off(a.start.0 as int, n) <= la),
        forall|n: int|
            #[trigger] mask.has(n) == (0 <= n < 0x8000 && if ms <= me {
                ms <= seq_off(a.start.0 as int, n) <= me
            } else {
                seq_off(a.start.0 as int, n) >= ms || seq_off(a.start.0 as int, n) <= me
            }),
{
}

} // verus!
