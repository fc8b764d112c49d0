//! Tracking of the sequence numbers of inbound frame sets, and the
//! acknowledgement ranges and missing numbers that each flush reports.
use vstd::prelude::*;
use std::collections::BTreeSet;

verus! {

broadcast use vstd::laws_cmp::group_laws_cmp, vstd::std_specs::btree::group_btree_axioms;

/// The tracked window: `lowest` is the first number not yet reported,
/// `highest` one past the largest number received, and `received` the
/// numbers of the window that have arrived.
pub struct AckState {
    pub lowest: u32,
    pub highest: u32,
    pub received: Set<u32>,
}

/// The state after sequence number `seq` arrives: numbers below the window
/// and repeats leave it unchanged.
pub open spec fn after_add(st: AckState, seq: u32) -> AckState {
    if st.lowest <= seq && !st.received.contains(seq) {
        AckState {
            lowest: st.lowest,
            highest: if st.highest <= seq {
                (seq + 1) as u32
            } else {
                st.highest
            },
            received: st.received.insert(seq),
        }
    } else {
        st
    }
}

/// Recording a sequence number twice leaves the same state as recording it
/// once, so the next flush reports the same ranges and missing numbers.
pub proof fn lemma_add_idempotent(st: AckState, seq: u32)
    ensures
        after_add(after_add(st, seq), seq) == after_add(st, seq),
{
}

/// The maximal runs of consecutive numbers of `s` in `[lo, hi)`, as
/// inclusive ranges in increasing order.
pub open spec fn ack_ranges(s: Set<u32>, lo: int, hi: int) -> Seq<(u32, u32)>
    decreases hi - lo,
{
    if hi <= lo {
        Seq::empty()
    } else {
        let r = ack_ranges(s, lo, hi - 1);
        let x = (hi - 1) as u32;
        if s.contains(x) {
            if r.len() > 0 && r.last().1 + 1 == x {
                r.update(r.len() - 1, (r.last().0, x))
            } else {
                r.push((x, x))
            }
        } else {
            r
        }
    }
}

/// The numbers of `[lo, hi)` that are not in `s`, in increasing order.
pub open spec fn ack_missing(s: Set<u32>, lo: int, hi: int) -> Seq<u32>
    decreases hi - lo,
{
    if hi <= lo {
        Seq::empty()
    } else {
        let r = ack_missing(s, lo, hi - 1);
        if s.contains((hi - 1) as u32) {
            r
        } else {
            r.push((hi - 1) as u32)
        }
    }
}

/// `x` lies in one of the ranges of `r`.
pub open spec fn in_ranges(r: Seq<(u32, u32)>, x: int) -> bool {
    exists|k: int| 0 <= k < r.len() && #[trigger] r[k].0 <= x <= r[k].1
}

/// The ranges are ordered, lie in `[lo, hi)` and are separated by gaps.
pub open spec fn ranges_ordered(r: Seq<(u32, u32)>, lo: int, hi: int) -> bool {
    &&& forall|k: int| 0 <= k < r.len() ==> lo <= #[trigger] r[k].0 <= r[k].1 < hi
    &&& forall|k: int| 0 <= k < r.len() - 1 ==> #[trigger] r[k].1 + 1 < r[k + 1].0
}

/// A flush partitions the window: its ranges are ordered, separated and
/// cover exactly the received numbers of `[lo, hi)`, and its missing list
/// holds exactly the others, in increasing order.
pub proof fn lemma_flush_partitions(s: Set<u32>, lo: int, hi: int)
    requires
        0 <= lo,
        hi <= u32::MAX + 1,
    ensures
        ranges_ordered(ack_ranges(s, lo, hi), lo, hi),
        forall|x: u32| lo <= x < hi ==> (#[trigger] s.contains(x) <==> in_ranges(ack_ranges(s, lo, hi), x as int)),
        forall|x: u32| lo <= x < hi ==> (#[trigger] ack_missing(s, lo, hi).contains(x) <==> !s.contains(x)),
        forall|i: int, j: int| 0 <= i < j < ack_missing(s, lo, hi).len() ==> ack_missing(s, lo, hi)[i] < ack_missing(s, lo, hi)[j],
        forall|i: int| 0 <= i < ack_missing(s, lo, hi).len() ==> lo <= #[trigger] ack_missing(s, lo, hi)[i] < hi,
    decreases hi - lo,
{
    if hi <= lo {
        return;
    }
    lemma_flush_partitions(s, lo, hi - 1);
    let r = ack_ranges(s, lo, hi - 1);
    let m = ack_missing(s, lo, hi - 1);
    let x = (hi - 1) as u32;
    let nr = ack_ranges(s, lo, hi);
    let nm = ack_missing(s, lo, hi);
    assert forall|y: int| lo <= y < hi - 1 implies (#[trigger] in_ranges(nr, y) <==> in_ranges(r, y)) by {
        if in_ranges(r, y) {
            let k = choose|k: int| 0 <= k < r.len() && #[trigger] r[k].0 <= y <= r[k].1;
            assert(nr[k].0 <= y <= nr[k].1);
        }
        if in_ranges(nr, y) {
            let k = choose|k: int| 0 <= k < nr.len() && #[trigger] nr[k].0 <= y <= nr[k].1;
            if k < r.len() {
                if k == r.len() - 1 && nr[k] != r[k] {
                    assert(r[k].0 <= y <= r[k].1);
                } else {
                    assert(r[k].0 <= y <= r[k].1);
                }
            }
        }
    }
    if r.len() > 0 {
        assert(r[r.len() - 1].0 <= r[r.len() - 1].1);
    }
    if s.contains(x) {
        let k = nr.len() - 1;
        assert(nr[k].0 <= hi - 1 <= nr[k].1);
        assert(in_ranges(nr, hi - 1));
    } else {
        assert(!in_ranges(nr, hi - 1));
    }
    assert forall|y: u32| lo <= y < hi implies (#[trigger] nm.contains(y) <==> !s.contains(y)) by {
        if y < hi - 1 {
            if m.contains(y) {
                let i = choose|i: int| 0 <= i < m.len() && m[i] == y;
                assert(nm[i] == y);
            }
            if nm.contains(y) {
                let i = choose|i: int| 0 <= i < nm.len() && nm[i] == y;
                if i < m.len() {
                    assert(m[i] == y);
                } else {
                    assert(nm[i] == x);
                }
            }
        } else {
            if !s.contains(x) {
                assert(nm[nm.len() - 1] == x);
            } else {
                if nm.contains(y) {
                    let i = choose|i: int| 0 <= i < nm.len() && nm[i] == y;
                    assert(m[i] < hi - 1);
                }
            }
        }
    }
}

/// Inbound sequence-number tracker.
pub struct ACKQueue {
    lowest: u32,
    highest: u32,
    store_seq: BTreeSet<u32>,
}

impl View for ACKQueue {
    type V = AckState;

    closed spec fn view(&self) -> AckState {
        AckState { lowest: self.lowest, highest: self.highest, received: self.store_seq@ }
    }
}

impl ACKQueue {
    /// The window is well formed: every received number lies in it.
    pub closed spec fn wf(&self) -> bool {
        &&& self.lowest <= self.highest
        &&& forall|x: u32| #[trigger] self.store_seq@.contains(x) ==> self.lowest <= x < self.highest
    }

    pub fn new() -> (r: Self)
        ensures
            r.wf(),
            r@ == (AckState { lowest: 0, highest: 0, received: Set::empty() }),
    {
        ACKQueue { lowest: 0, highest: 0, store_seq: BTreeSet::new() }
    }

    /// Records an inbound sequence number.
    pub fn add(&mut self, sequence: u32)
        requires
            old(self).wf(),
            sequence < u32::MAX,
        ensures
            final(self).wf(),
            final(self)@ == after_add(old(self)@, sequence),
    {
        if self.lowest <= sequence && !self.store_seq.contains(&sequence) {
            if self.highest <= sequence {
                self.highest = sequence + 1;
            }
            self.store_seq.insert(sequence);
        }
    }

    /// Reports the window: the runs of received numbers as inclusive ranges,
    /// and the numbers that did not arrive. The window then starts after it.
    pub fn clear(&mut self) -> (r: (Vec<(u32, u32)>, Vec<u32>))
        requires
            old(self).wf(),
        ensures
            final(self).wf(),
            r.0@ == ack_ranges(old(self)@.received, old(self)@.lowest as int, old(self)@.highest as int),
            r.1@ == ack_missing(old(self)@.received, old(self)@.lowest as int, old(self)@.highest as int),
            final(self)@ == (AckState {
                lowest: old(self)@.highest,
                highest: old(self)@.highest,
                received: Set::empty(),
            }),
    {
        let ghost s = self.store_seq@;
        let mut received: Vec<(u32, u32)> = Vec::new();
        let mut missing: Vec<u32> = Vec::new();
        let lowest = self.lowest;
        let highest = self.highest;
        let mut i: u32 = lowest;
        while i < highest
            invariant
                lowest == self.lowest,
                highest == self.highest,
                lowest <= i <= highest,
                forall|x: u32| #[trigger] s.contains(x) ==> lowest <= x < highest,
                self.store_seq@ == s.filter(|x: u32| x >= i),
                received@ == ack_ranges(s, lowest as int, i as int),
                missing@ == ack_missing(s, lowest as int, i as int),
            decreases highest - i,
        {
            proof {
                lemma_flush_partitions(s, lowest as int, i as int);
            }
            let present = self.store_seq.remove(&i);
            assert(present == s.contains(i));
            if present {
                let n = received.len();
                if n > 0 && received[n - 1].1 + 1 == i {
                    let first = received[n - 1].0;
                    received.set(n - 1, (first, i));
                } else {
                    received.push((i, i));
                }
            } else {
                missing.push(i);
            }
            assert(self.store_seq@ =~= s.filter(|x: u32| x >= i + 1));
            i = i + 1;
        }
        assert(self.store_seq@ =~= Set::<u32>::empty());
        self.lowest = highest;
        (received, missing)
    }
}

} // verus!
